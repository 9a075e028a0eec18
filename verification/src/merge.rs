use vstd::prelude::*;
use crate::blocks::{CodeBlock, DocumentBlock, ResultBlock, TextBlock};

verus! {

broadcast use vstd::seq_lib::group_seq_properties;

/// The blocks that one query of a multi-query search found.
#[derive(Clone, Debug)]
pub struct QuerySearchResult {
    pub query_index: usize,
    pub code_blocks: Vec<CodeBlock>,
    pub doc_blocks: Vec<DocumentBlock>,
    pub text_blocks: Vec<TextBlock>,
}

// ---------------------------------------------------------------------------
// Distances
// ---------------------------------------------------------------------------

/// Whether distance `a` is below `b` in the order of `Option`: a missing
/// distance is below every present one.
pub open spec fn distance_lt(a: Option<u64>, b: Option<u64>) -> bool {
    match (a, b) {
        (None, Some(_)) => true,
        (Some(x), Some(y)) => x < y,
        _ => false,
    }
}

fn exec_distance_lt(a: Option<u64>, b: Option<u64>) -> (r: bool)
    ensures
        r == distance_lt(a, b),
{
    match (a, b) {
        (None, Some(_)) => true,
        (Some(x), Some(y)) => x < y,
        _ => false,
    }
}

/// The rank by which results are sorted: present distances first, closest
/// first; a missing distance ranks after every present one.
pub open spec fn distance_rank(d: Option<u64>) -> int {
    match d {
        Some(x) => x as int,
        None => u64::MAX as int + 1,
    }
}

fn exec_distance_rank(d: Option<u64>) -> (r: u128)
    ensures
        r as int == distance_rank(d),
{
    match d {
        Some(x) => x as u128,
        None => u64::MAX as u128 + 1,
    }
}

/// Whether a block with distance `d` passes the distance threshold.
pub open spec fn within_threshold(d: Option<u64>, threshold: int) -> bool {
    match d {
        Some(x) => x <= threshold,
        None => true,
    }
}

/// The distance after the multi-query bonus: a block that `n` of `total`
/// queries found has its distance reduced by the fraction
/// `min(n / total * 0.1, 0.2)`, rounded so that the reduction is whole
/// millionths. A block found by a single query, or a search with a single
/// query, keeps its distance.
pub open spec fn bonus_distance(d: Option<u64>, n: nat, total: nat) -> Option<u64> {
    match d {
        Some(x) => if n > 1 && total > 1 {
            let m = if n < 2 * total {
                n
            } else {
                2 * total
            };
            Some((x - (x * m) / ((10 * total) as int)) as u64)
        } else {
            d
        },
        None => None,
    }
}

fn exec_bonus_distance(d: Option<u64>, n: usize, total: usize) -> (r: Option<u64>)
    ensures
        r == bonus_distance(d, n as nat, total as nat),
{
    match d {
        Some(x) => {
            if n > 1 && total > 1 {
                let t: u128 = total as u128;
                let m: u128 = if (n as u128) < 2 * t {
                    n as u128
                } else {
                    2 * t
                };
                assert(m <= 0xffff_ffff_ffff_ffff);
                assert((x as u128) * m <= 0xffff_ffff_ffff_fffe_0000_0000_0000_0001) by (nonlinear_arith)
                    requires
                        x <= 0xffff_ffff_ffff_ffff,
                        m <= 0xffff_ffff_ffff_ffff,
                ;
                let prod: u128 = (x as u128) * m;
                let denom: u128 = 10 * t;
                let cut: u128 = prod / denom;
                assert(cut <= x) by (nonlinear_arith)
                    requires
                        m <= 2 * t,
                        t > 1,
                        prod == x * m,
                        denom == 10 * t,
                        cut == prod / denom,
                ;
                Some((x as u128 - cut) as u64)
            } else {
                d
            }
        },
        None => None,
    }
}

/// The block with the multi-query bonus applied to its distance.
pub open spec fn with_bonus<B: ResultBlock>(b: B, n: nat, total: nat) -> B {
    b.with_dist(bonus_distance(b.dist(), n, total))
}

/// Applies the multi-query bonus to a block found by the queries
/// `query_indices` out of `total_queries` queries.
pub fn apply_bonus<B: ResultBlock>(block: &mut B, query_indices: &[usize], total_queries: usize)
    ensures
        *final(block) == with_bonus(*old(block), query_indices@.len(), total_queries as nat),
{
    let d = exec_bonus_distance(block.distance_of(), query_indices.len(), total_queries);
    block.set_distance(d);
}

/// Applies the multi-query bonus to a code block.
pub fn apply_multi_query_bonus_code(
    block: &mut CodeBlock,
    query_indices: &[usize],
    total_queries: usize,
)
    ensures
        *final(block) == (CodeBlock {
            distance: bonus_distance(old(block).distance, query_indices@.len(), total_queries as nat),
            ..*old(block)
        }),
{
    apply_bonus(block, query_indices, total_queries);
}

/// Applies the multi-query bonus to a document block.
pub fn apply_multi_query_bonus_doc(
    block: &mut DocumentBlock,
    query_indices: &[usize],
    total_queries: usize,
)
    ensures
        *final(block) == (DocumentBlock {
            distance: bonus_distance(old(block).distance, query_indices@.len(), total_queries as nat),
            ..*old(block)
        }),
{
    apply_bonus(block, query_indices, total_queries);
}

/// Applies the multi-query bonus to a text block.
pub fn apply_multi_query_bonus_text(
    block: &mut TextBlock,
    query_indices: &[usize],
    total_queries: usize,
)
    ensures
        *final(block) == (TextBlock {
            distance: bonus_distance(old(block).distance, query_indices@.len(), total_queries as nat),
            ..*old(block)
        }),
{
    apply_bonus(block, query_indices, total_queries);
}

// ---------------------------------------------------------------------------
// Deduplication
// ---------------------------------------------------------------------------

/// A merged result: the block kept for one hash and the indices of the
/// queries that found a block with that hash.
pub open spec fn entry_views<B>(es: Seq<(B, Vec<usize>)>) -> Seq<(B, Seq<usize>)> {
    es.map_values(|e: (B, Vec<usize>)| (e.0, e.1@))
}

/// The first index at or after `i` of an entry whose block has hash `key`,
/// or `-1` when there is none.
pub open spec fn key_index_from<B: ResultBlock>(
    entries: Seq<(B, Seq<usize>)>,
    key: Seq<char>,
    i: int,
) -> int
    decreases entries.len() - i,
{
    if i < 0 || i >= entries.len() {
        -1
    } else if entries[i].0.key() == key {
        i
    } else {
        key_index_from(entries, key, i + 1)
    }
}

/// Merges one block that query `qi` found: a new hash adds an entry at the
/// end; a known hash records the query, and the new block replaces the kept
/// one when its distance is lower (moved down one line when `shift`).
pub open spec fn merge_step<B: ResultBlock>(
    entries: Seq<(B, Seq<usize>)>,
    b: B,
    qi: usize,
    shift: bool,
) -> Seq<(B, Seq<usize>)> {
    let j = key_index_from(entries, b.key(), 0);
    if j < 0 {
        entries.push((b, seq![qi]))
    } else {
        let kept = if distance_lt(b.dist(), entries[j].0.dist()) {
            if shift {
                b.shifted()
            } else {
                b
            }
        } else {
            entries[j].0
        };
        entries.update(j, (kept, entries[j].1.push(qi)))
    }
}

/// Merges the blocks that query `qi` found, in order.
pub open spec fn merge_blocks<B: ResultBlock>(
    entries: Seq<(B, Seq<usize>)>,
    blocks: Seq<B>,
    qi: usize,
    shift: bool,
) -> Seq<(B, Seq<usize>)>
    decreases blocks.len(),
{
    if blocks.len() == 0 {
        entries
    } else {
        merge_step(merge_blocks(entries, blocks.drop_last(), qi, shift), blocks.last(), qi, shift)
    }
}

proof fn lemma_key_index_from<B: ResultBlock>(entries: Seq<(B, Seq<usize>)>, key: Seq<char>, i: int)
    requires
        0 <= i <= entries.len(),
    ensures
        key_index_from(entries, key, i) == -1 || (i <= key_index_from(entries, key, i)
            < entries.len() && entries[key_index_from(entries, key, i)].0.key() == key),
        key_index_from(entries, key, i) == -1 ==> forall|k: int|
            i <= k < entries.len() ==> entries[k].0.key() != key,
    decreases entries.len() - i,
{
    if i < entries.len() && entries[i].0.key() != key {
        lemma_key_index_from(entries, key, i + 1);
    }
}

fn find_entry<B: ResultBlock>(entries: &Vec<(B, Vec<usize>)>, key: &String) -> (r: Option<usize>)
    ensures
        match r {
            Some(j) => j < entries@.len() && j == key_index_from(entry_views(entries@), key@, 0),
            None => key_index_from(entry_views(entries@), key@, 0) == -1,
        },
{
    let ghost es = entry_views(entries@);
    let mut j: usize = 0;
    while j < entries.len()
        invariant
            es == entry_views(entries@),
            0 <= j <= entries@.len(),
            key_index_from(es, key@, 0) == key_index_from(es, key@, j as int),
        decreases entries@.len() - j,
    {
        if *entries[j].0.hash_ref() == *key {
            proof {
                lemma_key_index_from(es, key@, j as int);
            }
            return Some(j);
        }
        j = j + 1;
    }
    None
}

/// Whether merging `b` into `entries` keeps its lines within `usize`: a
/// block that replaces a kept one, and so moves down a line, is not at the
/// last line.
pub open spec fn step_fits<B: ResultBlock>(entries: Seq<(B, Seq<usize>)>, b: B) -> bool {
    let j = key_index_from(entries, b.key(), 0);
    (j >= 0 && distance_lt(b.dist(), entries[j].0.dist())) ==> b.can_shift()
}

/// Whether merging `blocks` (with the line move) one after the other keeps
/// every line within `usize`.
pub open spec fn blocks_fit<B: ResultBlock>(entries: Seq<(B, Seq<usize>)>, blocks: Seq<B>, qi: usize) -> bool
    decreases blocks.len(),
{
    blocks.len() == 0 || (blocks_fit(entries, blocks.drop_last(), qi) && step_fits(
        merge_blocks(entries, blocks.drop_last(), qi, true),
        blocks.last(),
    ))
}

proof fn lemma_blocks_fit_prefix<B: ResultBlock>(
    entries: Seq<(B, Seq<usize>)>,
    blocks: Seq<B>,
    qi: usize,
    n: int,
)
    requires
        blocks_fit(entries, blocks, qi),
        0 <= n <= blocks.len(),
    ensures
        blocks_fit(entries, blocks.take(n), qi),
    decreases blocks.len(),
{
    if n == blocks.len() {
        assert(blocks.take(n) =~= blocks);
    } else {
        assert(blocks.drop_last().take(n) =~= blocks.take(n));
        lemma_blocks_fit_prefix(entries, blocks.drop_last(), qi, n);
    }
}

/// Merges `blocks`, found by query `qi`, into `entries`.
pub fn merge_into<B: ResultBlock>(
    entries: &mut Vec<(B, Vec<usize>)>,
    blocks: Vec<B>,
    qi: usize,
    shift: bool,
)
    requires
        shift ==> blocks_fit(entry_views(old(entries)@), blocks@, qi),
    ensures
        entry_views(final(entries)@) == merge_blocks(entry_views(old(entries)@), blocks@, qi, shift),
{
    let ghost e0 = entry_views(entries@);
    let ghost bs = blocks@;
    for b in it: blocks
        invariant
            it.seq() == bs,
            shift ==> blocks_fit(e0, bs, qi),
            entry_views(entries@) == merge_blocks(e0, bs.take(it.index() as int), qi, shift),
    {
        let ghost k = it.index();
        let ghost before = entry_views(entries@);
        assert(bs.take(k + 1).drop_last() =~= bs.take(k as int));
        assert(bs.take(k + 1).last() == b);
        proof {
            if shift {
                lemma_blocks_fit_prefix(e0, bs, qi, k + 1);
            }
        }
        let found = find_entry(entries, b.hash_ref());
        match found {
            Some(j) => {
                let (old_block, mut indices) = entries.remove(j);
                indices.push(qi);
                let replace = exec_distance_lt(b.distance_of(), old_block.distance_of());
                let mut b = b;
                if replace && shift {
                    assert(step_fits(before, bs[k as int]));
                    b.shift_lines();
                }
                let kept = if replace {
                    b
                } else {
                    old_block
                };
                entries.insert(j, (kept, indices));
                assert(entry_views(entries@) =~= merge_step(before, bs[k as int], qi, shift));
            },
            None => {
                let mut indices = Vec::new();
                indices.push(qi);
                entries.push((b, indices));
                assert(entry_views(entries@) =~= merge_step(before, bs[k as int], qi, shift));
            },
        }
    }
    assert(bs.take(bs.len() as int) =~= bs);
}

// ---------------------------------------------------------------------------
// Bonus, threshold and ordering
// ---------------------------------------------------------------------------

/// The kept blocks with the multi-query bonus applied, without those whose
/// distance then exceeds `threshold`, in entry order.
pub open spec fn bonus_and_filter<B: ResultBlock>(
    entries: Seq<(B, Seq<usize>)>,
    total: nat,
    threshold: int,
) -> Seq<B>
    decreases entries.len(),
{
    if entries.len() == 0 {
        seq![]
    } else {
        let prev = bonus_and_filter(entries.drop_last(), total, threshold);
        let b = with_bonus(entries.last().0, entries.last().1.len(), total);
        if within_threshold(b.dist(), threshold) {
            prev.push(b)
        } else {
            prev
        }
    }
}

fn exec_bonus_and_filter<B: ResultBlock>(
    entries: Vec<(B, Vec<usize>)>,
    total: usize,
    threshold: i64,
) -> (r: Vec<B>)
    ensures
        r@ == bonus_and_filter(entry_views(entries@), total as nat, threshold as int),
{
    let ghost es = entry_views(entries@);
    let mut out: Vec<B> = Vec::new();
    for e in it: entries
        invariant
            es == entry_views(it.seq()),
            out@ == bonus_and_filter(es.take(it.index() as int), total as nat, threshold as int),
    {
        let ghost k = it.index();
        assert(es.take(k + 1).drop_last() =~= es.take(k as int));
        let (mut b, indices) = e;
        apply_bonus(&mut b, indices.as_slice(), total);
        let keep = match b.distance_of() {
            Some(x) => (x as i128) <= (threshold as i128),
            None => true,
        };
        if keep {
            out.push(b);
        }
    }
    assert(es.take(es.len() as int) =~= es);
    out
}

/// The first position at or after `i` in `s` whose block ranks after `b`,
/// or the length of `s` when there is none.
pub open spec fn insert_position<B: ResultBlock>(s: Seq<B>, b: B, i: int) -> int
    decreases s.len() - i,
{
    if i < 0 || i >= s.len() {
        s.len() as int
    } else if distance_rank(s[i].dist()) > distance_rank(b.dist()) {
        i
    } else {
        insert_position(s, b, i + 1)
    }
}

/// `s` with `b` inserted after every block that does not rank after it.
pub open spec fn insert_by_distance<B: ResultBlock>(s: Seq<B>, b: B) -> Seq<B> {
    s.insert(insert_position(s, b, 0), b)
}

/// `s` sorted by distance, closest first, blocks without a distance last;
/// blocks of equal rank keep their order (a stable insertion sort).
pub open spec fn sort_by_distance<B: ResultBlock>(s: Seq<B>) -> Seq<B>
    decreases s.len(),
{
    if s.len() == 0 {
        seq![]
    } else {
        insert_by_distance(sort_by_distance(s.drop_last()), s.last())
    }
}

/// Whether `s` is ordered by distance rank.
pub open spec fn sorted_by_distance<B: ResultBlock>(s: Seq<B>) -> bool {
    forall|i: int, j: int|
        0 <= i < j < s.len() ==> distance_rank(#[trigger] s[i].dist()) <= distance_rank(
            #[trigger] s[j].dist(),
        )
}

fn exec_sort_by_distance<B: ResultBlock>(v: Vec<B>) -> (r: Vec<B>)
    ensures
        r@ == sort_by_distance(v@),
{
    let ghost vs = v@;
    let mut out: Vec<B> = Vec::new();
    for b in it: v
        invariant
            it.seq() == vs,
            out@ == sort_by_distance(vs.take(it.index() as int)),
    {
        let ghost k = it.index();
        assert(vs.take(k + 1).drop_last() =~= vs.take(k as int));
        let rank = exec_distance_rank(b.distance_of());
        let mut p: usize = 0;
        while p < out.len() && exec_distance_rank(out[p].distance_of()) <= rank
            invariant
                0 <= p <= out@.len(),
                insert_position(out@, b, 0) == insert_position(out@, b, p as int),
                rank == distance_rank(b.dist()),
            decreases out@.len() - p,
        {
            p = p + 1;
        }
        out.insert(p, b);
    }
    assert(vs.take(vs.len() as int) =~= vs);
    out
}

// ---------------------------------------------------------------------------
// Multi-query merging
// ---------------------------------------------------------------------------

/// The merged code blocks of the first `results.len()` query results.
pub open spec fn merged_code(results: Seq<QuerySearchResult>, shift: bool) -> Seq<(CodeBlock, Seq<usize>)>
    decreases results.len(),
{
    if results.len() == 0 {
        seq![]
    } else {
        let r = results.last();
        merge_blocks(merged_code(results.drop_last(), shift), r.code_blocks@, r.query_index, shift)
    }
}

/// The merged document blocks of the query results.
pub open spec fn merged_docs(results: Seq<QuerySearchResult>, shift: bool) -> Seq<(DocumentBlock, Seq<usize>)>
    decreases results.len(),
{
    if results.len() == 0 {
        seq![]
    } else {
        let r = results.last();
        merge_blocks(merged_docs(results.drop_last(), shift), r.doc_blocks@, r.query_index, shift)
    }
}

/// The merged text blocks of the query results.
pub open spec fn merged_texts(results: Seq<QuerySearchResult>, shift: bool) -> Seq<(TextBlock, Seq<usize>)>
    decreases results.len(),
{
    if results.len() == 0 {
        seq![]
    } else {
        let r = results.last();
        merge_blocks(merged_texts(results.drop_last(), shift), r.text_blocks@, r.query_index, shift)
    }
}

/// The final result list of one kind: merged, given the bonus, filtered by
/// the threshold and sorted by distance.
pub open spec fn final_results<B: ResultBlock>(
    merged: Seq<(B, Seq<usize>)>,
    total: nat,
    threshold: int,
) -> Seq<B> {
    sort_by_distance(bonus_and_filter(merged, total, threshold))
}

/// Whether merging the results of the queries, with the line move, keeps
/// every line within `usize`: no block that replaces a kept one is at the
/// last line.
pub open spec fn replacements_fit(results: Seq<QuerySearchResult>) -> bool
    decreases results.len(),
{
    results.len() == 0 || {
        let p = results.drop_last();
        let r = results.last();
        &&& replacements_fit(p)
        &&& blocks_fit(merged_code(p, true), r.code_blocks@, r.query_index)
        &&& blocks_fit(merged_docs(p, true), r.doc_blocks@, r.query_index)
        &&& blocks_fit(merged_texts(p, true), r.text_blocks@, r.query_index)
    }
}

proof fn lemma_replacements_fit_prefix(results: Seq<QuerySearchResult>, n: int)
    requires
        replacements_fit(results),
        0 <= n <= results.len(),
    ensures
        replacements_fit(results.take(n)),
    decreases results.len(),
{
    if n == results.len() {
        assert(results.take(n) =~= results);
    } else {
        assert(results.drop_last().take(n) =~= results.take(n));
        lemma_replacements_fit_prefix(results.drop_last(), n);
    }
}

fn merge_all(search_results: Vec<QuerySearchResult>, shift: bool) -> (r: (
    Vec<(CodeBlock, Vec<usize>)>,
    Vec<(DocumentBlock, Vec<usize>)>,
    Vec<(TextBlock, Vec<usize>)>,
))
    requires
        shift ==> replacements_fit(search_results@),
    ensures
        entry_views(r.0@) == merged_code(search_results@, shift),
        entry_views(r.1@) == merged_docs(search_results@, shift),
        entry_views(r.2@) == merged_texts(search_results@, shift),
{
    let ghost rs = search_results@;
    let mut code: Vec<(CodeBlock, Vec<usize>)> = Vec::new();
    let mut docs: Vec<(DocumentBlock, Vec<usize>)> = Vec::new();
    let mut texts: Vec<(TextBlock, Vec<usize>)> = Vec::new();
    for result in it: search_results
        invariant
            it.seq() == rs,
            shift ==> replacements_fit(rs),
            entry_views(code@) == merged_code(rs.take(it.index() as int), shift),
            entry_views(docs@) == merged_docs(rs.take(it.index() as int), shift),
            entry_views(texts@) == merged_texts(rs.take(it.index() as int), shift),
    {
        let ghost k = it.index();
        assert(rs.take(k + 1).drop_last() =~= rs.take(k as int));
        assert(rs.take(k + 1).last() == result);
        proof {
            if shift {
                lemma_replacements_fit_prefix(rs, k + 1);
            }
        }
        let QuerySearchResult { query_index, code_blocks, doc_blocks, text_blocks } = result;
        merge_into(&mut code, code_blocks, query_index, shift);
        merge_into(&mut docs, doc_blocks, query_index, shift);
        merge_into(&mut texts, text_blocks, query_index, shift);
    }
    assert(rs.take(rs.len() as int) =~= rs);
    (code, docs, texts)
}

// ---------------------------------------------------------------------------
// Checking beforehand that a merge keeps its lines within range
// ---------------------------------------------------------------------------

/// Hash and distance of each entry: all that decides which block a merge
/// keeps.
pub open spec fn entry_keys_dists<B: ResultBlock>(es: Seq<(B, Seq<usize>)>) -> Seq<(Seq<char>, Option<u64>)> {
    es.map_values(|e: (B, Seq<usize>)| (e.0.key(), e.0.dist()))
}

/// The views of hash-distance pairs.
pub open spec fn pair_views(v: Seq<(String, Option<u64>)>) -> Seq<(Seq<char>, Option<u64>)> {
    v.map_values(|e: (String, Option<u64>)| (e.0@, e.1))
}

/// The first index at or after `i` of a pair with hash `key`, or `-1`.
pub open spec fn pair_index_from(kd: Seq<(Seq<char>, Option<u64>)>, key: Seq<char>, i: int) -> int
    decreases kd.len() - i,
{
    if i < 0 || i >= kd.len() {
        -1
    } else if kd[i].0 == key {
        i
    } else {
        pair_index_from(kd, key, i + 1)
    }
}

proof fn lemma_pair_index<B: ResultBlock>(es: Seq<(B, Seq<usize>)>, key: Seq<char>, i: int)
    requires
        0 <= i <= es.len(),
    ensures
        key_index_from(es, key, i) == pair_index_from(entry_keys_dists(es), key, i),
    decreases es.len() - i,
{
    if i < es.len() {
        lemma_pair_index(es, key, i + 1);
    }
}

fn find_pair(kd: &Vec<(String, Option<u64>)>, key: &String) -> (r: Option<usize>)
    ensures
        match r {
            Some(j) => j < kd@.len() && j == pair_index_from(pair_views(kd@), key@, 0),
            None => pair_index_from(pair_views(kd@), key@, 0) == -1,
        },
{
    let ghost v = pair_views(kd@);
    let mut j: usize = 0;
    while j < kd.len()
        invariant
            v == pair_views(kd@),
            0 <= j <= kd@.len(),
            pair_index_from(v, key@, 0) == pair_index_from(v, key@, j as int),
        decreases kd@.len() - j,
    {
        if kd[j].0 == *key {
            return Some(j);
        }
        j = j + 1;
    }
    None
}

fn check_blocks<B: ResultBlock>(
    kd: &mut Vec<(String, Option<u64>)>,
    blocks: &Vec<B>,
    Ghost(es): Ghost<Seq<(B, Seq<usize>)>>,
    qi: usize,
) -> (ok: bool)
    requires
        pair_views(old(kd)@) == entry_keys_dists(es),
    ensures
        ok == blocks_fit(es, blocks@, qi),
        ok ==> pair_views(final(kd)@) == entry_keys_dists(merge_blocks(es, blocks@, qi, true)),
{
    let ghost bs = blocks@;
    let mut i: usize = 0;
    assert(bs.take(0) =~= Seq::<B>::empty());
    while i < blocks.len()
        invariant
            bs == blocks@,
            0 <= i <= bs.len(),
            pair_views(kd@) == entry_keys_dists(merge_blocks(es, bs.take(i as int), qi, true)),
            blocks_fit(es, bs.take(i as int), qi),
        decreases bs.len() - i,
    {
        let ghost prev = merge_blocks(es, bs.take(i as int), qi, true);
        let b = &blocks[i];
        assert(bs.take(i + 1).drop_last() =~= bs.take(i as int));
        assert(bs.take(i + 1).last() == bs[i as int]);
        proof {
            lemma_pair_index(prev, b.key(), 0);
            b.lemma_updates(None);
        }
        let found = find_pair(kd, b.hash_ref());
        match found {
            Some(j) => {
                assert(*b == bs[i as int]);
                assert(j == key_index_from(prev, b.key(), 0));
                assert(kd@[j as int].1 == pair_views(kd@)[j as int].1);
                assert(kd@[j as int].1 == prev[j as int].0.dist());
                let replace = exec_distance_lt(b.distance_of(), kd[j].1);
                if replace {
                    if !b.lines_can_shift() {
                        proof {
                            if blocks_fit(es, bs, qi) {
                                lemma_blocks_fit_prefix(es, bs, qi, i + 1);
                            }
                        }
                        return false;
                    }
                    let h = b.hash_ref().clone();
                    assert(h@ == b.key());
                    let ghost kv0 = pair_views(kd@);
                    kd.set(j, (h, b.distance_of()));
                    assert(pair_views(kd@) =~= kv0.update(j as int, (b.key(), b.dist())));
                    let ghost kept = bs[i as int].shifted();
                    assert(kept.key() == b.key());
                    assert(kept.dist() == b.dist());
                    let ghost m = merge_step(prev, bs[i as int], qi, true);
                    assert(m == prev.update(j as int, (kept, prev[j as int].1.push(qi))));
                    assert(entry_keys_dists(m) =~= entry_keys_dists(prev).update(j as int, (kept.key(), kept.dist())));
                    assert(pair_views(kd@) =~= entry_keys_dists(merge_step(prev, bs[i as int], qi, true)));
                } else {
                    assert(pair_views(kd@) =~= entry_keys_dists(merge_step(prev, bs[i as int], qi, true)));
                }
            },
            None => {
                assert(*b == bs[i as int]);
                assert(key_index_from(prev, b.key(), 0) == -1);
                let h = b.hash_ref().clone();
                assert(h@ == b.key());
                let ghost kv0 = pair_views(kd@);
                kd.push((h, b.distance_of()));
                assert(pair_views(kd@) =~= kv0.push((b.key(), b.dist())));
                let ghost m = merge_step(prev, bs[i as int], qi, true);
                assert(m == prev.push((bs[i as int], seq![qi])));
                assert(entry_keys_dists(m) =~= entry_keys_dists(prev).push((b.key(), b.dist())));
                assert(pair_views(kd@) =~= entry_keys_dists(merge_step(prev, bs[i as int], qi, true)));
            },
        }
        i = i + 1;
    }
    assert(bs.take(bs.len() as int) =~= bs);
    true
}

/// Whether merging the results with `deduplicate_and_merge_results` keeps
/// every line within `usize`: no block that replaces a kept one is at the
/// last line. Callers check this before the merge.
pub fn merge_lines_fit(search_results: &Vec<QuerySearchResult>) -> (r: bool)
    ensures
        r == replacements_fit(search_results@),
{
    let ghost rs = search_results@;
    let mut code: Vec<(String, Option<u64>)> = Vec::new();
    let mut docs: Vec<(String, Option<u64>)> = Vec::new();
    let mut texts: Vec<(String, Option<u64>)> = Vec::new();
    assert(rs.take(0) =~= Seq::<QuerySearchResult>::empty());
    assert(pair_views(code@) =~= entry_keys_dists(merged_code(rs.take(0), true)));
    assert(pair_views(docs@) =~= entry_keys_dists(merged_docs(rs.take(0), true)));
    assert(pair_views(texts@) =~= entry_keys_dists(merged_texts(rs.take(0), true)));
    let mut k: usize = 0;
    while k < search_results.len()
        invariant
            rs == search_results@,
            0 <= k <= rs.len(),
            replacements_fit(rs.take(k as int)),
            pair_views(code@) == entry_keys_dists(merged_code(rs.take(k as int), true)),
            pair_views(docs@) == entry_keys_dists(merged_docs(rs.take(k as int), true)),
            pair_views(texts@) == entry_keys_dists(merged_texts(rs.take(k as int), true)),
        decreases rs.len() - k,
    {
        let ghost p = rs.take(k as int);
        assert(rs.take(k + 1).drop_last() =~= p);
        assert(rs.take(k + 1).last() == rs[k as int]);
        let r = &search_results[k];
        proof {
            if replacements_fit(rs) {
                lemma_replacements_fit_prefix(rs, k + 1);
            }
        }
        let ok_code = check_blocks(&mut code, &r.code_blocks, Ghost(merged_code(p, true)), r.query_index);
        if !ok_code {
            return false;
        }
        let ok_docs = check_blocks(&mut docs, &r.doc_blocks, Ghost(merged_docs(p, true)), r.query_index);
        if !ok_docs {
            return false;
        }
        let ok_texts = check_blocks(&mut texts, &r.text_blocks, Ghost(merged_texts(p, true)), r.query_index);
        if !ok_texts {
            return false;
        }
        k = k + 1;
    }
    assert(rs.take(rs.len() as int) =~= rs);
    true
}

fn finish<B: ResultBlock>(entries: Vec<(B, Vec<usize>)>, total: usize, threshold: i64) -> (r: Vec<B>)
    ensures
        r@ == final_results(entry_views(entries@), total as nat, threshold as int),
{
    let filtered = exec_bonus_and_filter(entries, total, threshold);
    exec_sort_by_distance(filtered)
}

/// Merges the results of several queries: blocks with the same hash are
/// kept once (the one with the lowest distance, with its lines moved down
/// by one when it replaced an earlier one), blocks found by several queries
/// get a distance bonus, blocks beyond `distance_threshold` (in millionths)
/// are dropped, and each list is sorted by distance. No replacing block may
/// be at the last line, where moving it would overflow; `merge_lines_fit`
/// tells beforehand.
pub fn deduplicate_and_merge_results(
    search_results: Vec<QuerySearchResult>,
    queries: &[String],
    distance_threshold: i64,
) -> (r: (Vec<CodeBlock>, Vec<DocumentBlock>, Vec<TextBlock>))
    requires
        replacements_fit(search_results@),
    ensures
        r.0@ == final_results(merged_code(search_results@, true), queries@.len(), distance_threshold as int),
        r.1@ == final_results(merged_docs(search_results@, true), queries@.len(), distance_threshold as int),
        r.2@ == final_results(merged_texts(search_results@, true), queries@.len(), distance_threshold as int),
{
    let (code, docs, texts) = merge_all(search_results, true);
    let total = queries.len();
    (finish(code, total, distance_threshold), finish(docs, total, distance_threshold), finish(texts, total, distance_threshold))
}

/// Merges the results of several queries for the MCP server: as
/// `deduplicate_and_merge_results`, except that a replacing block keeps its
/// own line range.
pub fn deduplicate_and_merge_results_mcp(
    search_results: Vec<QuerySearchResult>,
    queries: &[String],
    distance_threshold: i64,
) -> (r: (Vec<CodeBlock>, Vec<DocumentBlock>, Vec<TextBlock>))
    ensures
        r.0@ == final_results(merged_code(search_results@, false), queries@.len(), distance_threshold as int),
        r.1@ == final_results(merged_docs(search_results@, false), queries@.len(), distance_threshold as int),
        r.2@ == final_results(merged_texts(search_results@, false), queries@.len(), distance_threshold as int),
{
    let (code, docs, texts) = merge_all(search_results, false);
    let total = queries.len();
    (finish(code, total, distance_threshold), finish(docs, total, distance_threshold), finish(texts, total, distance_threshold))
}

// ---------------------------------------------------------------------------
// Laws of the merging
// ---------------------------------------------------------------------------

/// Whether no two blocks of `s` share a hash.
pub open spec fn unique_keys<B: ResultBlock>(s: Seq<B>) -> bool {
    forall|i: int, j: int| 0 <= i < j < s.len() ==> (#[trigger] s[i]).key() != (#[trigger] s[j]).key()
}

/// Whether no two entries share a hash.
pub open spec fn unique_entry_keys<B: ResultBlock>(s: Seq<(B, Seq<usize>)>) -> bool {
    forall|i: int, j: int|
        0 <= i < j < s.len() ==> (#[trigger] s[i]).0.key() != (#[trigger] s[j]).0.key()
}

proof fn lemma_merge_step_unique<B: ResultBlock>(
    entries: Seq<(B, Seq<usize>)>,
    b: B,
    qi: usize,
    shift: bool,
)
    requires
        unique_entry_keys(entries),
    ensures
        unique_entry_keys(merge_step(entries, b, qi, shift)),
        merge_step(entries, b, qi, shift).len() >= entries.len(),
{
    lemma_key_index_from(entries, b.key(), 0);
    b.lemma_updates(None);
    let j = key_index_from(entries, b.key(), 0);
    let r = merge_step(entries, b, qi, shift);
    if j >= 0 {
        assert forall|x: int, y: int| 0 <= x < y < r.len() implies (#[trigger] r[x]).0.key() != (
        #[trigger] r[y]).0.key() by {
            assert(r[j].0.key() == entries[j].0.key());
            if x != j {
                assert(r[x] == entries[x]);
            }
            if y != j {
                assert(r[y] == entries[y]);
            }
        }
    } else {
        assert forall|x: int, y: int| 0 <= x < y < r.len() implies (#[trigger] r[x]).0.key() != (
        #[trigger] r[y]).0.key() by {
            if y < entries.len() {
                assert(r[x] == entries[x] && r[y] == entries[y]);
            } else {
                assert(r[x] == entries[x]);
            }
        }
    }
}

proof fn lemma_merge_blocks_unique<B: ResultBlock>(
    entries: Seq<(B, Seq<usize>)>,
    blocks: Seq<B>,
    qi: usize,
    shift: bool,
)
    requires
        unique_entry_keys(entries),
    ensures
        unique_entry_keys(merge_blocks(entries, blocks, qi, shift)),
    decreases blocks.len(),
{
    if blocks.len() > 0 {
        lemma_merge_blocks_unique(entries, blocks.drop_last(), qi, shift);
        lemma_merge_step_unique(merge_blocks(entries, blocks.drop_last(), qi, shift), blocks.last(), qi, shift);
    }
}

proof fn lemma_merged_unique(results: Seq<QuerySearchResult>, shift: bool)
    ensures
        unique_entry_keys(merged_code(results, shift)),
        unique_entry_keys(merged_docs(results, shift)),
        unique_entry_keys(merged_texts(results, shift)),
    decreases results.len(),
{
    if results.len() > 0 {
        let r = results.last();
        lemma_merged_unique(results.drop_last(), shift);
        lemma_merge_blocks_unique(merged_code(results.drop_last(), shift), r.code_blocks@, r.query_index, shift);
        lemma_merge_blocks_unique(merged_docs(results.drop_last(), shift), r.doc_blocks@, r.query_index, shift);
        lemma_merge_blocks_unique(merged_texts(results.drop_last(), shift), r.text_blocks@, r.query_index, shift);
    }
}

/// The filtered list is a subsequence of the entries, each block given the
/// bonus and passing the threshold.
proof fn lemma_bonus_and_filter<B: ResultBlock>(entries: Seq<(B, Seq<usize>)>, total: nat, threshold: int)
    requires
        unique_entry_keys(entries),
    ensures
        unique_keys(bonus_and_filter(entries, total, threshold)),
        forall|i: int|
            0 <= i < bonus_and_filter(entries, total, threshold).len() ==> within_threshold(
                (#[trigger] bonus_and_filter(entries, total, threshold)[i]).dist(),
                threshold,
            ),
        forall|i: int|
            0 <= i < bonus_and_filter(entries, total, threshold).len() ==> exists|k: int|
                0 <= k < entries.len() && entries[k].0.key() == (
                #[trigger] bonus_and_filter(entries, total, threshold)[i]).key(),
    decreases entries.len(),
{
    if entries.len() > 0 {
        let prev_entries = entries.drop_last();
        assert(unique_entry_keys(prev_entries)) by {
            assert forall|i: int, j: int| 0 <= i < j < prev_entries.len() implies (
            #[trigger] prev_entries[i]).0.key() != (#[trigger] prev_entries[j]).0.key() by {
                assert(prev_entries[i] == entries[i] && prev_entries[j] == entries[j]);
            }
        }
        lemma_bonus_and_filter(prev_entries, total, threshold);
        let prev = bonus_and_filter(prev_entries, total, threshold);
        let e = entries.last();
        let b = with_bonus(e.0, e.1.len(), total);
        e.0.lemma_updates(bonus_distance(e.0.dist(), e.1.len(), total));
        let r = bonus_and_filter(entries, total, threshold);
        assert forall|i: int| 0 <= i < r.len() implies exists|k: int|
            0 <= k < entries.len() && entries[k].0.key() == (#[trigger] r[i]).key() by {
            if i < prev.len() {
                assert(r[i] == prev[i]);
                let k = choose|k: int| 0 <= k < prev_entries.len() && prev_entries[k].0.key() == prev[i].key();
                assert(entries[k] == prev_entries[k]);
            } else {
                assert(entries[entries.len() - 1].0.key() == r[i].key());
            }
        }
        if within_threshold(b.dist(), threshold) {
            assert forall|x: int, y: int| 0 <= x < y < r.len() implies (#[trigger] r[x]).key() != (
            #[trigger] r[y]).key() by {
                if y == prev.len() {
                    assert(r[x] == prev[x]);
                    let k = choose|k: int| 0 <= k < prev_entries.len() && prev_entries[k].0.key() == prev[x].key();
                    assert(entries[k] == prev_entries[k]);
                    assert(entries[k].0.key() != entries[entries.len() - 1].0.key());
                } else {
                    assert(r[x] == prev[x] && r[y] == prev[y]);
                }
            }
        }
    }
}

proof fn lemma_insert_position<B: ResultBlock>(s: Seq<B>, b: B, i: int)
    requires
        0 <= i <= s.len(),
    ensures
        i <= insert_position(s, b, i) <= s.len(),
        forall|k: int|
            i <= k < insert_position(s, b, i) ==> distance_rank(#[trigger] s[k].dist())
                <= distance_rank(b.dist()),
        insert_position(s, b, i) < s.len() ==> distance_rank(s[insert_position(s, b, i)].dist())
            > distance_rank(b.dist()),
    decreases s.len() - i,
{
    if i < s.len() && distance_rank(s[i].dist()) <= distance_rank(b.dist()) {
        lemma_insert_position(s, b, i + 1);
    }
}

proof fn lemma_insert_by_distance<B: ResultBlock>(s: Seq<B>, b: B)
    requires
        sorted_by_distance(s),
    ensures
        sorted_by_distance(insert_by_distance(s, b)),
        insert_by_distance(s, b).to_multiset() == s.to_multiset().insert(b),
{
    let p = insert_position(s, b, 0);
    lemma_insert_position(s, b, 0);
    let r = insert_by_distance(s, b);
    assert(r.len() == s.len() + 1);
    assert forall|k: int| 0 <= k < r.len() implies #[trigger] r[k] == if k < p {
        s[k]
    } else if k == p {
        b
    } else {
        s[k - 1]
    } by {}
    assert forall|x: int, y: int| 0 <= x < y < r.len() implies distance_rank(
        #[trigger] r[x].dist(),
    ) <= distance_rank(#[trigger] r[y].dist()) by {
        if x < p && y == p {
        } else if x < p && y > p {
            assert(distance_rank(s[x].dist()) <= distance_rank(s[y - 1].dist()));
        } else if x == p {
            assert(distance_rank(s[p].dist()) <= distance_rank(s[y - 1].dist()));
        } else if x > p {
            assert(distance_rank(s[x - 1].dist()) <= distance_rank(s[y - 1].dist()));
        } else {
            assert(distance_rank(s[x].dist()) <= distance_rank(s[y].dist()));
        }
    }
    vstd::seq_lib::to_multiset_insert(s, p, b);
}

/// `sort_by_distance` sorts, and keeps every block exactly as often as it
/// was given.
pub proof fn lemma_sort_by_distance<B: ResultBlock>(s: Seq<B>)
    ensures
        sorted_by_distance(sort_by_distance(s)),
        sort_by_distance(s).to_multiset() == s.to_multiset(),
    decreases s.len(),
{
    if s.len() == 0 {
        assert(sort_by_distance(s) =~= s);
    } else {
        lemma_sort_by_distance(s.drop_last());
        lemma_insert_by_distance(sort_by_distance(s.drop_last()), s.last());
        vstd::seq_lib::to_multiset_build(s.drop_last(), s.last());
        assert(s.drop_last().push(s.last()) =~= s);
    }
}

proof fn lemma_final_results<B: ResultBlock>(entries: Seq<(B, Seq<usize>)>, total: nat, threshold: int)
    requires
        unique_entry_keys(entries),
    ensures
        sorted_by_distance(final_results(entries, total, threshold)),
        unique_keys(final_results(entries, total, threshold)),
        final_results(entries, total, threshold).to_multiset() == bonus_and_filter(
            entries,
            total,
            threshold,
        ).to_multiset(),
        forall|i: int|
            0 <= i < final_results(entries, total, threshold).len() ==> within_threshold(
                (#[trigger] final_results(entries, total, threshold)[i]).dist(),
                threshold,
            ),
{
    let f = bonus_and_filter(entries, total, threshold);
    let r = final_results(entries, total, threshold);
    lemma_bonus_and_filter(entries, total, threshold);
    lemma_sort_by_distance(f);
    assert forall|i: int| 0 <= i < r.len() implies exists|k: int| 0 <= k < f.len() && f[k] == #[trigger] r[i] by {
        assert(r.to_multiset().count(r[i]) > 0);
        assert(f.to_multiset().count(r[i]) > 0);
        vstd::seq_lib::to_multiset_contains(f, r[i]);
    }
    assert forall|i: int| 0 <= i < r.len() implies within_threshold((#[trigger] r[i]).dist(), threshold) by {
        let k = choose|k: int| 0 <= k < f.len() && f[k] == r[i];
        assert(within_threshold(f[k].dist(), threshold));
    }
    assert(f.no_duplicates()) by {
        assert forall|i: int, j: int| 0 <= i < f.len() && 0 <= j < f.len() && i != j implies f[i]
            != f[j] by {
            if i < j {
                assert(f[i].key() != f[j].key());
            } else {
                assert(f[j].key() != f[i].key());
            }
        }
    }
    f.lemma_multiset_has_no_duplicates();
    r.lemma_multiset_has_no_duplicates_conv();
    assert forall|x: int, y: int| 0 <= x < y < r.len() implies (#[trigger] r[x]).key() != (#[trigger] r[y]).key() by {
        let kx = choose|k: int| 0 <= k < f.len() && f[k] == r[x];
        let ky = choose|k: int| 0 <= k < f.len() && f[k] == r[y];
        assert(r[x] != r[y]);
        assert(kx != ky);
        if kx < ky {
            assert(f[kx].key() != f[ky].key());
        } else {
            assert(f[ky].key() != f[kx].key());
        }
    }
}

/// The multi-query bonus never raises a distance, lowers it by at most a
/// fifth, leaves a missing distance missing, and changes nothing for a block
/// found by one query or in a single-query search.
pub proof fn law_bonus_bounds(d: Option<u64>, n: nat, total: nat)
    ensures
        d is None ==> bonus_distance(d, n, total) is None,
        d matches Some(x) ==> bonus_distance(d, n, total) matches Some(y) && y <= x && 5 * y >= 4
            * x,
        (n <= 1 || total <= 1) ==> bonus_distance(d, n, total) == d,
{
    if let Some(x) = d {
        if n > 1 && total > 1 {
            let m = if n < 2 * total {
                n
            } else {
                2 * total
            };
            let cut = (x * m) / ((10 * total) as int);
            assert(0 <= cut && 5 * cut <= x) by (nonlinear_arith)
                requires
                    m <= 2 * total,
                    total > 1,
                    x >= 0,
                    m >= 0,
                    cut == (x * m) / ((10 * total) as int),
            ;
        }
    }
}

/// The multi-query bonus cuts the distance by the share
/// `min(n / total, 2) / 10` of it, rounded down to whole millionths: the
/// cut `x - y` is the largest whole number with
/// `10 * total * (x - y) <= x * min(n, 2 * total)`. A block that more
/// queries found ends up no farther away.
pub proof fn law_bonus_fraction(x: u64, n: nat, n2: nat, total: nat)
    requires
        n > 1,
        total > 1,
    ensures
        bonus_distance(Some(x), n, total) matches Some(y) && {
            let m = if n < 2 * total {
                n
            } else {
                2 * total
            };
            &&& 10 * total * (x - y) <= x * m
            &&& x * m < 10 * total * (x - y + 1)
        },
        n <= n2 ==> (bonus_distance(Some(x), n2, total) matches Some(y2) && bonus_distance(
            Some(x),
            n,
            total,
        ) matches Some(y) && y2 <= y),
{
    let m = if n < 2 * total {
        n
    } else {
        2 * total
    };
    let m2 = if n2 < 2 * total {
        n2
    } else {
        2 * total
    };
    let t = 10 * total;
    let cut = (x * m) / (t as int);
    let cut2 = (x * m2) / (t as int);
    assert(0 <= cut && 5 * cut <= x && t * cut <= x * m && x * m < t * (cut + 1)) by (nonlinear_arith)
        requires
            m <= 2 * total,
            total > 1,
            t == 10 * total,
            x >= 0,
            m >= 0,
            cut == (x * m) / (t as int),
    ;
    if n <= n2 {
        assert(cut <= cut2 && 5 * cut2 <= x) by (nonlinear_arith)
            requires
                m <= m2,
                m2 <= 2 * total,
                total > 1,
                t == 10 * total,
                x >= 0,
                m >= 0,
                cut == (x * m) / (t as int),
                cut2 == (x * m2) / (t as int),
        ;
    }
}

proof fn lemma_bonus_and_filter_members<B: ResultBlock>(
    entries: Seq<(B, Seq<usize>)>,
    total: nat,
    threshold: int,
)
    ensures
        forall|i: int|
            0 <= i < entries.len() && within_threshold(
                bonus_distance((#[trigger] entries[i]).0.dist(), entries[i].1.len(), total),
                threshold,
            ) ==> bonus_and_filter(entries, total, threshold).contains(
                with_bonus(entries[i].0, entries[i].1.len(), total),
            ),
        forall|j: int|
            0 <= j < bonus_and_filter(entries, total, threshold).len() ==> exists|i: int|
                0 <= i < entries.len() && (#[trigger] bonus_and_filter(entries, total, threshold)[j])
                    == with_bonus(entries[i].0, entries[i].1.len(), total),
        forall|j: int|
            0 <= j < bonus_and_filter(entries, total, threshold).len() ==> within_threshold(
                (#[trigger] bonus_and_filter(entries, total, threshold)[j]).dist(),
                threshold,
            ),
    decreases entries.len(),
{
    if entries.len() > 0 {
        let pe = entries.drop_last();
        lemma_bonus_and_filter_members(pe, total, threshold);
        let prev = bonus_and_filter(pe, total, threshold);
        let r = bonus_and_filter(entries, total, threshold);
        let e = entries.last();
        let b = with_bonus(e.0, e.1.len(), total);
        e.0.lemma_updates(bonus_distance(e.0.dist(), e.1.len(), total));
        assert forall|i: int|
            0 <= i < entries.len() && within_threshold(
                bonus_distance((#[trigger] entries[i]).0.dist(), entries[i].1.len(), total),
                threshold,
            ) implies r.contains(with_bonus(entries[i].0, entries[i].1.len(), total)) by {
            if i < entries.len() - 1 {
                assert(pe[i] == entries[i]);
                let x = with_bonus(entries[i].0, entries[i].1.len(), total);
                assert(prev.contains(x));
                let m = choose|m: int| 0 <= m < prev.len() && prev[m] == x;
                assert(r[m] == prev[m]);
            } else {
                assert(r[r.len() - 1] == b);
            }
        }
        assert forall|j: int| 0 <= j < r.len() implies exists|i: int|
            0 <= i < entries.len() && (#[trigger] r[j]) == with_bonus(
                entries[i].0,
                entries[i].1.len(),
                total,
            ) by {
            if j < prev.len() {
                assert(r[j] == prev[j]);
                let i = choose|i: int|
                    0 <= i < pe.len() && prev[j] == with_bonus(pe[i].0, pe[i].1.len(), total);
                assert(pe[i] == entries[i]);
            } else {
                assert(r[j] == with_bonus(entries[entries.len() - 1].0, entries[entries.len() - 1].1.len(), total));
            }
        }
    }
}

/// The threshold applies to distances after the multi-query bonus: a
/// merged block is in the final list, with its bonus, exactly when its
/// distance after the bonus is within the threshold; every block of the
/// final list is such a merged block with its bonus.
pub proof fn law_threshold_after_bonus<B: ResultBlock>(
    entries: Seq<(B, Seq<usize>)>,
    total: nat,
    threshold: int,
)
    ensures
        forall|i: int|
            0 <= i < entries.len() && within_threshold(
                bonus_distance((#[trigger] entries[i]).0.dist(), entries[i].1.len(), total),
                threshold,
            ) ==> final_results(entries, total, threshold).contains(
                with_bonus(entries[i].0, entries[i].1.len(), total),
            ),
        forall|j: int|
            0 <= j < final_results(entries, total, threshold).len() ==> exists|i: int|
                0 <= i < entries.len() && (#[trigger] final_results(entries, total, threshold)[j])
                    == with_bonus(entries[i].0, entries[i].1.len(), total) && within_threshold(
                    bonus_distance(entries[i].0.dist(), entries[i].1.len(), total),
                    threshold,
                ),
        forall|i: int|
            0 <= i < entries.len() && !within_threshold(
                bonus_distance((#[trigger] entries[i]).0.dist(), entries[i].1.len(), total),
                threshold,
            ) ==> !final_results(entries, total, threshold).contains(
                with_bonus(entries[i].0, entries[i].1.len(), total),
            ),
{
    let f = bonus_and_filter(entries, total, threshold);
    let r = final_results(entries, total, threshold);
    lemma_bonus_and_filter_members(entries, total, threshold);
    lemma_sort_by_distance(f);
    assert forall|i: int|
        0 <= i < entries.len() && within_threshold(
            bonus_distance((#[trigger] entries[i]).0.dist(), entries[i].1.len(), total),
            threshold,
        ) implies r.contains(with_bonus(entries[i].0, entries[i].1.len(), total)) by {
        let x = with_bonus(entries[i].0, entries[i].1.len(), total);
        vstd::seq_lib::to_multiset_contains(f, x);
        vstd::seq_lib::to_multiset_contains(r, x);
    }
    assert forall|j: int| 0 <= j < r.len() implies exists|i: int|
        0 <= i < entries.len() && (#[trigger] r[j]) == with_bonus(entries[i].0, entries[i].1.len(), total)
            && within_threshold(bonus_distance(entries[i].0.dist(), entries[i].1.len(), total), threshold) by {
        vstd::seq_lib::to_multiset_contains(r, r[j]);
        vstd::seq_lib::to_multiset_contains(f, r[j]);
        let m = choose|m: int| 0 <= m < f.len() && f[m] == r[j];
        let i = choose|i: int|
            0 <= i < entries.len() && f[m] == with_bonus(entries[i].0, entries[i].1.len(), total);
        entries[i].0.lemma_updates(bonus_distance(entries[i].0.dist(), entries[i].1.len(), total));
        assert(within_threshold(f[m].dist(), threshold));
    }
    assert forall|i: int|
        0 <= i < entries.len() && !within_threshold(
            bonus_distance((#[trigger] entries[i]).0.dist(), entries[i].1.len(), total),
            threshold,
        ) implies !r.contains(with_bonus(entries[i].0, entries[i].1.len(), total)) by {
        let x = with_bonus(entries[i].0, entries[i].1.len(), total);
        entries[i].0.lemma_updates(bonus_distance(entries[i].0.dist(), entries[i].1.len(), total));
        if r.contains(x) {
            let j = choose|j: int| 0 <= j < r.len() && r[j] == x;
            vstd::seq_lib::to_multiset_contains(r, x);
            vstd::seq_lib::to_multiset_contains(f, x);
            let m = choose|m: int| 0 <= m < f.len() && f[m] == x;
            assert(within_threshold(f[m].dist(), threshold));
        }
    }
}

/// Whether some entry has hash `key`.
pub open spec fn has_entry_key<B: ResultBlock>(es: Seq<(B, Seq<usize>)>, key: Seq<char>) -> bool {
    exists|m: int| 0 <= m < es.len() && (#[trigger] es[m]).0.key() == key
}

/// Merging never loses a hash: for every block that the query found, and
/// every earlier entry, the merged list keeps an entry with that hash.
proof fn lemma_merge_blocks_keeps_keys<B: ResultBlock>(
    entries: Seq<(B, Seq<usize>)>,
    blocks: Seq<B>,
    qi: usize,
    shift: bool,
)
    ensures
        forall|k: int|
            0 <= k < entries.len() ==> has_entry_key(
                merge_blocks(entries, blocks, qi, shift),
                (#[trigger] entries[k]).0.key(),
            ),
        forall|i: int|
            0 <= i < blocks.len() ==> has_entry_key(
                merge_blocks(entries, blocks, qi, shift),
                (#[trigger] blocks[i]).key(),
            ),
    decreases blocks.len(),
{
    let r = merge_blocks(entries, blocks, qi, shift);
    if blocks.len() == 0 {
        assert forall|k: int| 0 <= k < entries.len() implies has_entry_key(
            r,
            (#[trigger] entries[k]).0.key(),
        ) by {
            assert(r[k] == entries[k]);
        }
    } else {
        let prev = merge_blocks(entries, blocks.drop_last(), qi, shift);
        lemma_merge_blocks_keeps_keys(entries, blocks.drop_last(), qi, shift);
        let b = blocks.last();
        assert(r == merge_step(prev, b, qi, shift));
        lemma_key_index_from(prev, b.key(), 0);
        b.lemma_updates(None);
        let j = key_index_from(prev, b.key(), 0);
        assert(r.len() >= prev.len());
        assert forall|m: int| 0 <= m < prev.len() implies (#[trigger] r[m]).0.key() == prev[m].0.key() by {}
        assert forall|k: int| 0 <= k < entries.len() implies has_entry_key(
            r,
            (#[trigger] entries[k]).0.key(),
        ) by {
            assert(has_entry_key(prev, entries[k].0.key()));
            let m1 = choose|m1: int| 0 <= m1 < prev.len() && (#[trigger] prev[m1]).0.key() == entries[k].0.key();
            assert(r[m1].0.key() == prev[m1].0.key());
        }
        assert forall|i: int| 0 <= i < blocks.len() implies has_entry_key(
            r,
            (#[trigger] blocks[i]).key(),
        ) by {
            if i < blocks.len() - 1 {
                assert(blocks[i] == blocks.drop_last()[i]);
                assert(has_entry_key(prev, blocks.drop_last()[i].key()));
                let m1 = choose|m1: int|
                    0 <= m1 < prev.len() && (#[trigger] prev[m1]).0.key() == blocks.drop_last()[i].key();
                assert(r[m1].0.key() == prev[m1].0.key());
            } else if j >= 0 {
                assert(r[j].0.key() == b.key());
            } else {
                assert(r[prev.len() as int].0.key() == b.key());
            }
        }
    }
}

/// Whether an entry or a block has the hash and the distance of `x`.
spec fn copy_in<B: ResultBlock>(entries: Seq<(B, Seq<usize>)>, blocks: Seq<B>, x: B) -> bool {
    ||| exists|k: int|
        0 <= k < entries.len() && (#[trigger] entries[k]).0.key() == x.key() && entries[k].0.dist() == x.dist()
    ||| exists|i: int| 0 <= i < blocks.len() && (#[trigger] blocks[i]).key() == x.key() && blocks[i].dist() == x.dist()
}

proof fn lemma_merge_blocks_closest<B: ResultBlock>(
    entries: Seq<(B, Seq<usize>)>,
    blocks: Seq<B>,
    qi: usize,
    shift: bool,
)
    requires
        unique_entry_keys(entries),
    ensures
        forall|m: int, i: int|
            0 <= m < merge_blocks(entries, blocks, qi, shift).len() && 0 <= i < blocks.len() && (
            #[trigger] blocks[i]).key() == (#[trigger] merge_blocks(entries, blocks, qi, shift)[m]).0.key()
                ==> !distance_lt(blocks[i].dist(), merge_blocks(entries, blocks, qi, shift)[m].0.dist()),
        forall|m: int, k: int|
            0 <= m < merge_blocks(entries, blocks, qi, shift).len() && 0 <= k < entries.len() && (
            #[trigger] entries[k]).0.key() == (#[trigger] merge_blocks(entries, blocks, qi, shift)[m]).0.key()
                ==> !distance_lt(entries[k].0.dist(), merge_blocks(entries, blocks, qi, shift)[m].0.dist()),
        forall|m: int|
            0 <= m < merge_blocks(entries, blocks, qi, shift).len() ==> copy_in(
                entries,
                blocks,
                (#[trigger] merge_blocks(entries, blocks, qi, shift)[m]).0,
            ),
    decreases blocks.len(),
{
    let r = merge_blocks(entries, blocks, qi, shift);
    if blocks.len() == 0 {
        assert forall|m: int| 0 <= m < r.len() implies copy_in(entries, blocks, (#[trigger] r[m]).0) by {
            assert(entries[m] == r[m]);
        }
    } else {
        let d = blocks.drop_last();
        let prev = merge_blocks(entries, d, qi, shift);
        lemma_merge_blocks_closest(entries, d, qi, shift);
        lemma_merge_blocks_keeps_keys(entries, d, qi, shift);
        lemma_merge_blocks_unique(entries, d, qi, shift);
        let b = blocks.last();
        assert(r == merge_step(prev, b, qi, shift));
        lemma_key_index_from(prev, b.key(), 0);
        b.lemma_updates(None);
        let j = key_index_from(prev, b.key(), 0);
        assert forall|i: int| 0 <= i < d.len() implies #[trigger] blocks[i] == d[i] by {}
        if j < 0 {
            assert forall|m: int| 0 <= m < prev.len() implies #[trigger] r[m] == prev[m] by {}
            assert(r[prev.len() as int].0 == b);
            assert forall|m: int, i: int|
                0 <= m < r.len() && 0 <= i < blocks.len() && (#[trigger] blocks[i]).key() == (#[trigger] r[m]).0.key()
                    implies !distance_lt(blocks[i].dist(), r[m].0.dist()) by {
                if m < prev.len() {
                    if i < d.len() {
                        assert(d[i] == blocks[i]);
                    } else {
                        assert(prev[m].0.key() != b.key());
                    }
                } else if i < d.len() {
                    assert(has_entry_key(prev, d[i].key()));
                } else {
                }
            }
            assert forall|m: int, k: int|
                0 <= m < r.len() && 0 <= k < entries.len() && (#[trigger] entries[k]).0.key() == (#[trigger] r[m]).0.key()
                    implies !distance_lt(entries[k].0.dist(), r[m].0.dist()) by {
                if m == prev.len() {
                    assert(has_entry_key(prev, entries[k].0.key()));
                }
            }
            assert forall|m: int| 0 <= m < r.len() implies copy_in(entries, blocks, (#[trigger] r[m]).0) by {
                if m < prev.len() {
                    assert(r[m] == prev[m]);
                    if exists|k: int| 0 <= k < entries.len() && (#[trigger] entries[k]).0.key() == prev[m].0.key()
                        && entries[k].0.dist() == prev[m].0.dist() {
                        let k = choose|k: int| 0 <= k < entries.len() && (#[trigger] entries[k]).0.key() == prev[m].0.key()
                            && entries[k].0.dist() == prev[m].0.dist();
                        assert(entries[k].0.key() == r[m].0.key() && entries[k].0.dist() == r[m].0.dist());
                    }
                    if exists|i: int| 0 <= i < d.len() && (#[trigger] d[i]).key() == prev[m].0.key() && d[i].dist()
                        == prev[m].0.dist() {
                        let i = choose|i: int| 0 <= i < d.len() && (#[trigger] d[i]).key() == prev[m].0.key() && d[i].dist()
                            == prev[m].0.dist();
                        assert(blocks[i] == d[i]);
                    }
                } else {
                    assert(blocks[blocks.len() - 1] == b);
                }
            }
        } else {
            let replace = distance_lt(b.dist(), prev[j].0.dist());
            let kept = if replace {
                if shift {
                    b.shifted()
                } else {
                    b
                }
            } else {
                prev[j].0
            };
            assert(r[j].0 == kept);
            assert(kept.key() == b.key());
            assert(kept.dist() == if replace {
                b.dist()
            } else {
                prev[j].0.dist()
            });
            assert forall|m: int| 0 <= m < r.len() && m != j implies #[trigger] r[m] == prev[m] by {}
            assert forall|m: int, i: int|
                0 <= m < r.len() && 0 <= i < blocks.len() && (#[trigger] blocks[i]).key() == (#[trigger] r[m]).0.key()
                    implies !distance_lt(blocks[i].dist(), r[m].0.dist()) by {
                if m != j {
                    assert(prev[m].0.key() != prev[j].0.key());
                    if i < d.len() {
                        assert(d[i] == blocks[i]);
                    }
                } else if i < d.len() {
                    assert(d[i] == blocks[i]);
                    assert(!distance_lt(d[i].dist(), prev[j].0.dist()));
                }
            }
            assert forall|m: int, k: int|
                0 <= m < r.len() && 0 <= k < entries.len() && (#[trigger] entries[k]).0.key() == (#[trigger] r[m]).0.key()
                    implies !distance_lt(entries[k].0.dist(), r[m].0.dist()) by {
                if m == j {
                    assert(!distance_lt(entries[k].0.dist(), prev[j].0.dist()));
                }
            }
            assert forall|m: int| 0 <= m < r.len() implies copy_in(entries, blocks, (#[trigger] r[m]).0) by {
                if m == j && replace {
                    assert(blocks[blocks.len() - 1] == b);
                } else {
                    assert(r[m].0.key() == prev[m].0.key() && r[m].0.dist() == prev[m].0.dist());
                    if exists|k: int| 0 <= k < entries.len() && (#[trigger] entries[k]).0.key() == prev[m].0.key()
                        && entries[k].0.dist() == prev[m].0.dist() {
                        let k = choose|k: int| 0 <= k < entries.len() && (#[trigger] entries[k]).0.key() == prev[m].0.key()
                            && entries[k].0.dist() == prev[m].0.dist();
                        assert(entries[k].0.key() == r[m].0.key() && entries[k].0.dist() == r[m].0.dist());
                    }
                    if exists|i: int| 0 <= i < d.len() && (#[trigger] d[i]).key() == prev[m].0.key() && d[i].dist()
                        == prev[m].0.dist() {
                        let i = choose|i: int| 0 <= i < d.len() && (#[trigger] d[i]).key() == prev[m].0.key() && d[i].dist()
                            == prev[m].0.dist();
                        assert(blocks[i] == d[i]);
                    }
                }
            }
        }
    }
}

proof fn lemma_merged_code_closest(results: Seq<QuerySearchResult>, shift: bool)
    ensures
        forall|m: int, i: int, j: int|
            0 <= m < merged_code(results, shift).len() && 0 <= i < results.len() && 0 <= j
                < results[i].code_blocks@.len() && (#[trigger] results[i].code_blocks@[j]).key() == (
            #[trigger] merged_code(results, shift)[m]).0.key() ==> !distance_lt(
                results[i].code_blocks@[j].dist(),
                merged_code(results, shift)[m].0.dist(),
            ),
        forall|m: int|
            0 <= m < merged_code(results, shift).len() ==> exists|i: int, j: int|
                0 <= i < results.len() && 0 <= j < results[i].code_blocks@.len() && (
                #[trigger] results[i].code_blocks@[j]).key() == (#[trigger] merged_code(results, shift)[m]).0.key()
                    && results[i].code_blocks@[j].dist() == merged_code(results, shift)[m].0.dist(),
    decreases results.len(),
{
    if results.len() > 0 {
        let p = results.drop_last();
        let last = results.last();
        let e = merged_code(p, shift);
        let r = merged_code(results, shift);
        lemma_merged_code_closest(p, shift);
        lemma_merged_unique(p, shift);
        lemma_merged_code_keeps_keys(p, shift);
        lemma_merge_blocks_closest(e, last.code_blocks@, last.query_index, shift);
        assert(r == merge_blocks(e, last.code_blocks@, last.query_index, shift));
        assert forall|i: int| 0 <= i < p.len() implies #[trigger] results[i] == p[i] by {}
        assert forall|m: int, i: int, j: int|
            0 <= m < r.len() && 0 <= i < results.len() && 0 <= j < results[i].code_blocks@.len() && (
            #[trigger] results[i].code_blocks@[j]).key() == (#[trigger] r[m]).0.key() implies !distance_lt(
                results[i].code_blocks@[j].dist(),
                r[m].0.dist(),
            ) by {
            if i < p.len() {
                let c = p[i].code_blocks@[j];
                assert(c == results[i].code_blocks@[j]);
                assert(has_entry_key(e, c.key()));
                let k = choose|k: int| 0 <= k < e.len() && (#[trigger] e[k]).0.key() == c.key();
                assert(!distance_lt(c.dist(), e[k].0.dist()));
                assert(!distance_lt(e[k].0.dist(), r[m].0.dist()));
            } else {
                assert(results[i] == last);
            }
        }
        assert forall|m: int| 0 <= m < r.len() implies exists|i: int, j: int|
            0 <= i < results.len() && 0 <= j < results[i].code_blocks@.len() && (
            #[trigger] results[i].code_blocks@[j]).key() == (#[trigger] r[m]).0.key()
                && results[i].code_blocks@[j].dist() == r[m].0.dist() by {
            if exists|k: int|
                0 <= k < e.len() && (#[trigger] e[k]).0.key() == r[m].0.key() && e[k].0.dist() == r[m].0.dist() {
                let k = choose|k: int|
                    0 <= k < e.len() && (#[trigger] e[k]).0.key() == r[m].0.key() && e[k].0.dist() == r[m].0.dist();
                let (i, j) = choose|i: int, j: int|
                    0 <= i < p.len() && 0 <= j < p[i].code_blocks@.len() && (#[trigger] p[i].code_blocks@[j]).key()
                        == (#[trigger] e[k]).0.key() && p[i].code_blocks@[j].dist() == e[k].0.dist();
                assert(results[i] == p[i]);
                assert(results[i].code_blocks@[j] == p[i].code_blocks@[j]);
            } else {
                let j = choose|j: int|
                    0 <= j < last.code_blocks@.len() && (#[trigger] last.code_blocks@[j]).key() == r[m].0.key()
                        && last.code_blocks@[j].dist() == r[m].0.dist();
                assert(results[results.len() - 1] == last);
                assert(results[results.len() - 1].code_blocks@[j] == last.code_blocks@[j]);
            }
        }
    }
}

proof fn lemma_merged_docs_closest(results: Seq<QuerySearchResult>, shift: bool)
    ensures
        forall|m: int, i: int, j: int|
            0 <= m < merged_docs(results, shift).len() && 0 <= i < results.len() && 0 <= j
                < results[i].doc_blocks@.len() && (#[trigger] results[i].doc_blocks@[j]).key() == (
            #[trigger] merged_docs(results, shift)[m]).0.key() ==> !distance_lt(
                results[i].doc_blocks@[j].dist(),
                merged_docs(results, shift)[m].0.dist(),
            ),
        forall|m: int|
            0 <= m < merged_docs(results, shift).len() ==> exists|i: int, j: int|
                0 <= i < results.len() && 0 <= j < results[i].doc_blocks@.len() && (
                #[trigger] results[i].doc_blocks@[j]).key() == (#[trigger] merged_docs(results, shift)[m]).0.key()
                    && results[i].doc_blocks@[j].dist() == merged_docs(results, shift)[m].0.dist(),
    decreases results.len(),
{
    if results.len() > 0 {
        let p = results.drop_last();
        let last = results.last();
        let e = merged_docs(p, shift);
        let r = merged_docs(results, shift);
        lemma_merged_docs_closest(p, shift);
        lemma_merged_unique(p, shift);
        lemma_merged_docs_keeps_keys(p, shift);
        lemma_merge_blocks_closest(e, last.doc_blocks@, last.query_index, shift);
        assert(r == merge_blocks(e, last.doc_blocks@, last.query_index, shift));
        assert forall|i: int| 0 <= i < p.len() implies #[trigger] results[i] == p[i] by {}
        assert forall|m: int, i: int, j: int|
            0 <= m < r.len() && 0 <= i < results.len() && 0 <= j < results[i].doc_blocks@.len() && (
            #[trigger] results[i].doc_blocks@[j]).key() == (#[trigger] r[m]).0.key() implies !distance_lt(
                results[i].doc_blocks@[j].dist(),
                r[m].0.dist(),
            ) by {
            if i < p.len() {
                let c = p[i].doc_blocks@[j];
                assert(c == results[i].doc_blocks@[j]);
                assert(has_entry_key(e, c.key()));
                let k = choose|k: int| 0 <= k < e.len() && (#[trigger] e[k]).0.key() == c.key();
                assert(!distance_lt(c.dist(), e[k].0.dist()));
                assert(!distance_lt(e[k].0.dist(), r[m].0.dist()));
            } else {
                assert(results[i] == last);
            }
        }
        assert forall|m: int| 0 <= m < r.len() implies exists|i: int, j: int|
            0 <= i < results.len() && 0 <= j < results[i].doc_blocks@.len() && (
            #[trigger] results[i].doc_blocks@[j]).key() == (#[trigger] r[m]).0.key()
                && results[i].doc_blocks@[j].dist() == r[m].0.dist() by {
            if exists|k: int|
                0 <= k < e.len() && (#[trigger] e[k]).0.key() == r[m].0.key() && e[k].0.dist() == r[m].0.dist() {
                let k = choose|k: int|
                    0 <= k < e.len() && (#[trigger] e[k]).0.key() == r[m].0.key() && e[k].0.dist() == r[m].0.dist();
                let (i, j) = choose|i: int, j: int|
                    0 <= i < p.len() && 0 <= j < p[i].doc_blocks@.len() && (#[trigger] p[i].doc_blocks@[j]).key()
                        == (#[trigger] e[k]).0.key() && p[i].doc_blocks@[j].dist() == e[k].0.dist();
                assert(results[i] == p[i]);
                assert(results[i].doc_blocks@[j] == p[i].doc_blocks@[j]);
            } else {
                let j = choose|j: int|
                    0 <= j < last.doc_blocks@.len() && (#[trigger] last.doc_blocks@[j]).key() == r[m].0.key()
                        && last.doc_blocks@[j].dist() == r[m].0.dist();
                assert(results[results.len() - 1] == last);
                assert(results[results.len() - 1].doc_blocks@[j] == last.doc_blocks@[j]);
            }
        }
    }
}

proof fn lemma_merged_texts_closest(results: Seq<QuerySearchResult>, shift: bool)
    ensures
        forall|m: int, i: int, j: int|
            0 <= m < merged_texts(results, shift).len() && 0 <= i < results.len() && 0 <= j
                < results[i].text_blocks@.len() && (#[trigger] results[i].text_blocks@[j]).key() == (
            #[trigger] merged_texts(results, shift)[m]).0.key() ==> !distance_lt(
                results[i].text_blocks@[j].dist(),
                merged_texts(results, shift)[m].0.dist(),
            ),
        forall|m: int|
            0 <= m < merged_texts(results, shift).len() ==> exists|i: int, j: int|
                0 <= i < results.len() && 0 <= j < results[i].text_blocks@.len() && (
                #[trigger] results[i].text_blocks@[j]).key() == (#[trigger] merged_texts(results, shift)[m]).0.key()
                    && results[i].text_blocks@[j].dist() == merged_texts(results, shift)[m].0.dist(),
    decreases results.len(),
{
    if results.len() > 0 {
        let p = results.drop_last();
        let last = results.last();
        let e = merged_texts(p, shift);
        let r = merged_texts(results, shift);
        lemma_merged_texts_closest(p, shift);
        lemma_merged_unique(p, shift);
        lemma_merged_texts_keeps_keys(p, shift);
        lemma_merge_blocks_closest(e, last.text_blocks@, last.query_index, shift);
        assert(r == merge_blocks(e, last.text_blocks@, last.query_index, shift));
        assert forall|i: int| 0 <= i < p.len() implies #[trigger] results[i] == p[i] by {}
        assert forall|m: int, i: int, j: int|
            0 <= m < r.len() && 0 <= i < results.len() && 0 <= j < results[i].text_blocks@.len() && (
            #[trigger] results[i].text_blocks@[j]).key() == (#[trigger] r[m]).0.key() implies !distance_lt(
                results[i].text_blocks@[j].dist(),
                r[m].0.dist(),
            ) by {
            if i < p.len() {
                let c = p[i].text_blocks@[j];
                assert(c == results[i].text_blocks@[j]);
                assert(has_entry_key(e, c.key()));
                let k = choose|k: int| 0 <= k < e.len() && (#[trigger] e[k]).0.key() == c.key();
                assert(!distance_lt(c.dist(), e[k].0.dist()));
                assert(!distance_lt(e[k].0.dist(), r[m].0.dist()));
            } else {
                assert(results[i] == last);
            }
        }
        assert forall|m: int| 0 <= m < r.len() implies exists|i: int, j: int|
            0 <= i < results.len() && 0 <= j < results[i].text_blocks@.len() && (
            #[trigger] results[i].text_blocks@[j]).key() == (#[trigger] r[m]).0.key()
                && results[i].text_blocks@[j].dist() == r[m].0.dist() by {
            if exists|k: int|
                0 <= k < e.len() && (#[trigger] e[k]).0.key() == r[m].0.key() && e[k].0.dist() == r[m].0.dist() {
                let k = choose|k: int|
                    0 <= k < e.len() && (#[trigger] e[k]).0.key() == r[m].0.key() && e[k].0.dist() == r[m].0.dist();
                let (i, j) = choose|i: int, j: int|
                    0 <= i < p.len() && 0 <= j < p[i].text_blocks@.len() && (#[trigger] p[i].text_blocks@[j]).key()
                        == (#[trigger] e[k]).0.key() && p[i].text_blocks@[j].dist() == e[k].0.dist();
                assert(results[i] == p[i]);
                assert(results[i].text_blocks@[j] == p[i].text_blocks@[j]);
            } else {
                let j = choose|j: int|
                    0 <= j < last.text_blocks@.len() && (#[trigger] last.text_blocks@[j]).key() == r[m].0.key()
                        && last.text_blocks@[j].dist() == r[m].0.dist();
                assert(results[results.len() - 1] == last);
                assert(results[results.len() - 1].text_blocks@[j] == last.text_blocks@[j]);
            }
        }
    }
}

proof fn lemma_merged_code_keeps_keys(results: Seq<QuerySearchResult>, shift: bool)
    ensures
        forall|i: int, j: int|
            0 <= i < results.len() && 0 <= j < results[i].code_blocks@.len() ==> has_entry_key(
                merged_code(results, shift),
                (#[trigger] results[i].code_blocks@[j]).key(),
            ),
    decreases results.len(),
{
    if results.len() > 0 {
        let r = results.last();
        let prev = merged_code(results.drop_last(), shift);
        lemma_merged_code_keeps_keys(results.drop_last(), shift);
        lemma_merge_blocks_keeps_keys(prev, r.code_blocks@, r.query_index, shift);
        let cur = merged_code(results, shift);
        assert forall|i: int, j: int|
            0 <= i < results.len() && 0 <= j < results[i].code_blocks@.len() implies has_entry_key(
            cur,
            (#[trigger] results[i].code_blocks@[j]).key(),
        ) by {
            if i < results.len() - 1 {
                assert(results[i] == results.drop_last()[i]);
                assert(has_entry_key(prev, results.drop_last()[i].code_blocks@[j].key()));
                let m1 = choose|m1: int|
                    0 <= m1 < prev.len() && (#[trigger] prev[m1]).0.key()
                        == results.drop_last()[i].code_blocks@[j].key();
                assert(has_entry_key(cur, prev[m1].0.key()));
            } else {
                assert(results[i] == r);
            }
        }
    }
}

proof fn lemma_merged_docs_keeps_keys(results: Seq<QuerySearchResult>, shift: bool)
    ensures
        forall|i: int, j: int|
            0 <= i < results.len() && 0 <= j < results[i].doc_blocks@.len() ==> has_entry_key(
                merged_docs(results, shift),
                (#[trigger] results[i].doc_blocks@[j]).key(),
            ),
    decreases results.len(),
{
    if results.len() > 0 {
        let r = results.last();
        let prev = merged_docs(results.drop_last(), shift);
        lemma_merged_docs_keeps_keys(results.drop_last(), shift);
        lemma_merge_blocks_keeps_keys(prev, r.doc_blocks@, r.query_index, shift);
        let cur = merged_docs(results, shift);
        assert forall|i: int, j: int|
            0 <= i < results.len() && 0 <= j < results[i].doc_blocks@.len() implies has_entry_key(
            cur,
            (#[trigger] results[i].doc_blocks@[j]).key(),
        ) by {
            if i < results.len() - 1 {
                assert(results[i] == results.drop_last()[i]);
                assert(has_entry_key(prev, results.drop_last()[i].doc_blocks@[j].key()));
                let m1 = choose|m1: int|
                    0 <= m1 < prev.len() && (#[trigger] prev[m1]).0.key()
                        == results.drop_last()[i].doc_blocks@[j].key();
                assert(has_entry_key(cur, prev[m1].0.key()));
            } else {
                assert(results[i] == r);
            }
        }
    }
}

proof fn lemma_merged_texts_keeps_keys(results: Seq<QuerySearchResult>, shift: bool)
    ensures
        forall|i: int, j: int|
            0 <= i < results.len() && 0 <= j < results[i].text_blocks@.len() ==> has_entry_key(
                merged_texts(results, shift),
                (#[trigger] results[i].text_blocks@[j]).key(),
            ),
    decreases results.len(),
{
    if results.len() > 0 {
        let r = results.last();
        let prev = merged_texts(results.drop_last(), shift);
        lemma_merged_texts_keeps_keys(results.drop_last(), shift);
        lemma_merge_blocks_keeps_keys(prev, r.text_blocks@, r.query_index, shift);
        let cur = merged_texts(results, shift);
        assert forall|i: int, j: int|
            0 <= i < results.len() && 0 <= j < results[i].text_blocks@.len() implies has_entry_key(
            cur,
            (#[trigger] results[i].text_blocks@[j]).key(),
        ) by {
            if i < results.len() - 1 {
                assert(results[i] == results.drop_last()[i]);
                assert(has_entry_key(prev, results.drop_last()[i].text_blocks@[j].key()));
                let m1 = choose|m1: int|
                    0 <= m1 < prev.len() && (#[trigger] prev[m1]).0.key()
                        == results.drop_last()[i].text_blocks@[j].key();
                assert(has_entry_key(cur, prev[m1].0.key()));
            } else {
                assert(results[i] == r);
            }
        }
    }
}

/// How many of `blocks` have hash `key`.
pub open spec fn count_key<B: ResultBlock>(blocks: Seq<B>, key: Seq<char>) -> nat
    decreases blocks.len(),
{
    if blocks.len() == 0 {
        0
    } else {
        count_key(blocks.drop_last(), key) + if blocks.last().key() == key {
            1nat
        } else {
            0nat
        }
    }
}

/// The query index `qi`, `n` times.
pub open spec fn repeat_query(n: nat, qi: usize) -> Seq<usize> {
    Seq::new(n, |_k: int| qi)
}

proof fn lemma_count_key_zero<B: ResultBlock>(blocks: Seq<B>, key: Seq<char>)
    requires
        forall|i: int| 0 <= i < blocks.len() ==> (#[trigger] blocks[i]).key() != key,
    ensures
        count_key(blocks, key) == 0,
    decreases blocks.len(),
{
    if blocks.len() > 0 {
        let d = blocks.drop_last();
        assert forall|i: int| 0 <= i < d.len() implies (#[trigger] d[i]).key() != key by {
            assert(d[i] == blocks[i]);
        }
        lemma_count_key_zero(d, key);
        assert(blocks.last() == blocks[blocks.len() - 1]);
    }
}

/// Merging the blocks of query `qi` keeps every entry in its place with its
/// hash and adds `qi` to its queries once per block with that hash; the new
/// entries are for hashes that no earlier entry has, with `qi` once per
/// block.
proof fn lemma_merge_blocks_queries<B: ResultBlock>(
    entries: Seq<(B, Seq<usize>)>,
    blocks: Seq<B>,
    qi: usize,
    shift: bool,
)
    requires
        unique_entry_keys(entries),
    ensures
        merge_blocks(entries, blocks, qi, shift).len() >= entries.len(),
        forall|m: int|
            0 <= m < entries.len() ==> (#[trigger] merge_blocks(entries, blocks, qi, shift)[m]).0.key()
                == entries[m].0.key() && merge_blocks(entries, blocks, qi, shift)[m].1 == entries[m].1
                + repeat_query(count_key(blocks, entries[m].0.key()), qi),
        forall|m: int|
            entries.len() <= m < merge_blocks(entries, blocks, qi, shift).len() ==> (#[trigger] merge_blocks(
                entries,
                blocks,
                qi,
                shift,
            )[m]).1 == repeat_query(count_key(blocks, merge_blocks(entries, blocks, qi, shift)[m].0.key()), qi)
                && !has_entry_key(entries, merge_blocks(entries, blocks, qi, shift)[m].0.key()),
    decreases blocks.len(),
{
    let r = merge_blocks(entries, blocks, qi, shift);
    if blocks.len() == 0 {
        assert forall|m: int| 0 <= m < entries.len() implies (#[trigger] r[m]).0.key() == entries[m].0.key()
            && r[m].1 == entries[m].1 + repeat_query(count_key(blocks, entries[m].0.key()), qi) by {
            assert(entries[m].1 + repeat_query(0, qi) =~= entries[m].1);
        }
    } else {
        let d = blocks.drop_last();
        let b = blocks.last();
        let prev = merge_blocks(entries, d, qi, shift);
        lemma_merge_blocks_queries(entries, d, qi, shift);
        lemma_merge_blocks_unique(entries, d, qi, shift);
        lemma_merge_blocks_keeps_keys(entries, d, qi, shift);
        assert(r == merge_step(prev, b, qi, shift));
        lemma_key_index_from(prev, b.key(), 0);
        b.lemma_updates(None);
        let j = key_index_from(prev, b.key(), 0);
        assert(forall|key: Seq<char>| #[trigger] count_key(blocks, key) == count_key(d, key) + if b.key() == key {
            1nat
        } else {
            0nat
        });
        if j < 0 {
            assert forall|m: int| 0 <= m < prev.len() implies #[trigger] r[m] == prev[m] by {}
            assert(r[prev.len() as int] == (b, seq![qi]));
            assert forall|i: int| 0 <= i < d.len() implies (#[trigger] d[i]).key() != b.key() by {
                assert(has_entry_key(prev, d[i].key()));
            }
            lemma_count_key_zero(d, b.key());
            assert(repeat_query(1, qi) =~= seq![qi]);
            assert(!has_entry_key(entries, b.key())) by {
                if has_entry_key(entries, b.key()) {
                    let k = choose|k: int| 0 <= k < entries.len() && (#[trigger] entries[k]).0.key() == b.key();
                    assert(prev[k].0.key() == b.key());
                }
            }
            assert forall|m: int| 0 <= m < entries.len() implies (#[trigger] r[m]).0.key() == entries[m].0.key()
                && r[m].1 == entries[m].1 + repeat_query(count_key(blocks, entries[m].0.key()), qi) by {
                assert(r[m] == prev[m]);
                assert(prev[m].0.key() != b.key());
            }
            assert forall|m: int| entries.len() <= m < r.len() implies (#[trigger] r[m]).1 == repeat_query(
                count_key(blocks, r[m].0.key()),
                qi,
            ) && !has_entry_key(entries, r[m].0.key()) by {
                if m < prev.len() {
                    assert(r[m] == prev[m]);
                    assert(prev[m].0.key() != b.key());
                }
            }
        } else {
            let kept = if distance_lt(b.dist(), prev[j].0.dist()) {
                if shift {
                    b.shifted()
                } else {
                    b
                }
            } else {
                prev[j].0
            };
            assert(r == prev.update(j, (kept, prev[j].1.push(qi))));
            assert(kept.key() == b.key());
            let c = count_key(d, b.key());
            assert(repeat_query(c + 1, qi) =~= repeat_query(c, qi).push(qi));
            assert forall|m: int| 0 <= m < entries.len() implies (#[trigger] r[m]).0.key() == entries[m].0.key()
                && r[m].1 == entries[m].1 + repeat_query(count_key(blocks, entries[m].0.key()), qi) by {
                if m == j {
                    assert((entries[m].1 + repeat_query(c, qi)).push(qi) =~= entries[m].1 + repeat_query(c + 1, qi));
                } else {
                    assert(r[m] == prev[m]);
                    assert(prev[m].0.key() != prev[j].0.key());
                }
            }
            assert forall|m: int| entries.len() <= m < r.len() implies (#[trigger] r[m]).1 == repeat_query(
                count_key(blocks, r[m].0.key()),
                qi,
            ) && !has_entry_key(entries, r[m].0.key()) by {
                if m == j {
                    assert(r[m].0.key() == prev[m].0.key());
                } else {
                    assert(r[m] == prev[m]);
                    assert(prev[m].0.key() != prev[j].0.key());
                }
            }
        }
    }
}

/// The queries that found hash `key` among the code blocks: each query's
/// index once per block of its result with that hash, in query order.
pub open spec fn code_queries(results: Seq<QuerySearchResult>, key: Seq<char>) -> Seq<usize>
    decreases results.len(),
{
    if results.len() == 0 {
        seq![]
    } else {
        code_queries(results.drop_last(), key) + repeat_query(
            count_key(results.last().code_blocks@, key),
            results.last().query_index,
        )
    }
}

proof fn lemma_code_queries_empty(results: Seq<QuerySearchResult>, key: Seq<char>)
    requires
        forall|i: int, j: int|
            0 <= i < results.len() && 0 <= j < results[i].code_blocks@.len() ==> (
            #[trigger] results[i].code_blocks@[j]).key() != key,
    ensures
        code_queries(results, key) == Seq::<usize>::empty(),
    decreases results.len(),
{
    if results.len() > 0 {
        let p = results.drop_last();
        assert forall|i: int, j: int|
            0 <= i < p.len() && 0 <= j < p[i].code_blocks@.len() implies (#[trigger] p[i].code_blocks@[j]).key() != key by {
            assert(p[i] == results[i]);
        }
        lemma_code_queries_empty(p, key);
        let last = results.last();
        assert(last == results[results.len() - 1]);
        assert forall|j: int| 0 <= j < last.code_blocks@.len() implies (#[trigger] last.code_blocks@[j]).key() != key by {
            assert(results[results.len() - 1].code_blocks@[j] == last.code_blocks@[j]);
        }
        lemma_count_key_zero(last.code_blocks@, key);
        assert(code_queries(p, key) + repeat_query(0, last.query_index) =~= Seq::<usize>::empty());
    }
}

proof fn lemma_merged_code_queries(results: Seq<QuerySearchResult>, shift: bool)
    ensures
        forall|m: int|
            0 <= m < merged_code(results, shift).len() ==> (#[trigger] merged_code(results, shift)[m]).1 == code_queries(
                results,
                merged_code(results, shift)[m].0.key(),
            ),
    decreases results.len(),
{
    if results.len() > 0 {
        let p = results.drop_last();
        let last = results.last();
        let e = merged_code(p, shift);
        let r = merged_code(results, shift);
        lemma_merged_code_queries(p, shift);
        lemma_merged_unique(p, shift);
        lemma_merged_code_keeps_keys(p, shift);
        lemma_merge_blocks_queries(e, last.code_blocks@, last.query_index, shift);
        assert(r == merge_blocks(e, last.code_blocks@, last.query_index, shift));
        assert forall|m: int| 0 <= m < r.len() implies (#[trigger] r[m]).1 == code_queries(results, r[m].0.key()) by {
            let key = r[m].0.key();
            if m < e.len() {
                assert(e[m].1 == code_queries(p, key));
            } else {
                assert(!has_entry_key(e, key));
                assert forall|i: int, j: int|
                    0 <= i < p.len() && 0 <= j < p[i].code_blocks@.len() implies (#[trigger] p[i].code_blocks@[j]).key()
                    != key by {
                    assert(has_entry_key(e, p[i].code_blocks@[j].key()));
                }
                lemma_code_queries_empty(p, key);
                assert(code_queries(p, key) + repeat_query(count_key(last.code_blocks@, key), last.query_index)
                    =~= repeat_query(count_key(last.code_blocks@, key), last.query_index));
            }
        }
    }
}

/// The queries that found hash `key` among the documentation blocks: each query's
/// index once per block of its result with that hash, in query order.
pub open spec fn doc_queries(results: Seq<QuerySearchResult>, key: Seq<char>) -> Seq<usize>
    decreases results.len(),
{
    if results.len() == 0 {
        seq![]
    } else {
        doc_queries(results.drop_last(), key) + repeat_query(
            count_key(results.last().doc_blocks@, key),
            results.last().query_index,
        )
    }
}

proof fn lemma_doc_queries_empty(results: Seq<QuerySearchResult>, key: Seq<char>)
    requires
        forall|i: int, j: int|
            0 <= i < results.len() && 0 <= j < results[i].doc_blocks@.len() ==> (
            #[trigger] results[i].doc_blocks@[j]).key() != key,
    ensures
        doc_queries(results, key) == Seq::<usize>::empty(),
    decreases results.len(),
{
    if results.len() > 0 {
        let p = results.drop_last();
        assert forall|i: int, j: int|
            0 <= i < p.len() && 0 <= j < p[i].doc_blocks@.len() implies (#[trigger] p[i].doc_blocks@[j]).key() != key by {
            assert(p[i] == results[i]);
        }
        lemma_doc_queries_empty(p, key);
        let last = results.last();
        assert(last == results[results.len() - 1]);
        assert forall|j: int| 0 <= j < last.doc_blocks@.len() implies (#[trigger] last.doc_blocks@[j]).key() != key by {
            assert(results[results.len() - 1].doc_blocks@[j] == last.doc_blocks@[j]);
        }
        lemma_count_key_zero(last.doc_blocks@, key);
        assert(doc_queries(p, key) + repeat_query(0, last.query_index) =~= Seq::<usize>::empty());
    }
}

proof fn lemma_merged_docs_queries(results: Seq<QuerySearchResult>, shift: bool)
    ensures
        forall|m: int|
            0 <= m < merged_docs(results, shift).len() ==> (#[trigger] merged_docs(results, shift)[m]).1 == doc_queries(
                results,
                merged_docs(results, shift)[m].0.key(),
            ),
    decreases results.len(),
{
    if results.len() > 0 {
        let p = results.drop_last();
        let last = results.last();
        let e = merged_docs(p, shift);
        let r = merged_docs(results, shift);
        lemma_merged_docs_queries(p, shift);
        lemma_merged_unique(p, shift);
        lemma_merged_docs_keeps_keys(p, shift);
        lemma_merge_blocks_queries(e, last.doc_blocks@, last.query_index, shift);
        assert(r == merge_blocks(e, last.doc_blocks@, last.query_index, shift));
        assert forall|m: int| 0 <= m < r.len() implies (#[trigger] r[m]).1 == doc_queries(results, r[m].0.key()) by {
            let key = r[m].0.key();
            if m < e.len() {
                assert(e[m].1 == doc_queries(p, key));
            } else {
                assert(!has_entry_key(e, key));
                assert forall|i: int, j: int|
                    0 <= i < p.len() && 0 <= j < p[i].doc_blocks@.len() implies (#[trigger] p[i].doc_blocks@[j]).key()
                    != key by {
                    assert(has_entry_key(e, p[i].doc_blocks@[j].key()));
                }
                lemma_doc_queries_empty(p, key);
                assert(doc_queries(p, key) + repeat_query(count_key(last.doc_blocks@, key), last.query_index)
                    =~= repeat_query(count_key(last.doc_blocks@, key), last.query_index));
            }
        }
    }
}

/// The queries that found hash `key` among the text blocks: each query's
/// index once per block of its result with that hash, in query order.
pub open spec fn text_queries(results: Seq<QuerySearchResult>, key: Seq<char>) -> Seq<usize>
    decreases results.len(),
{
    if results.len() == 0 {
        seq![]
    } else {
        text_queries(results.drop_last(), key) + repeat_query(
            count_key(results.last().text_blocks@, key),
            results.last().query_index,
        )
    }
}

proof fn lemma_text_queries_empty(results: Seq<QuerySearchResult>, key: Seq<char>)
    requires
        forall|i: int, j: int|
            0 <= i < results.len() && 0 <= j < results[i].text_blocks@.len() ==> (
            #[trigger] results[i].text_blocks@[j]).key() != key,
    ensures
        text_queries(results, key) == Seq::<usize>::empty(),
    decreases results.len(),
{
    if results.len() > 0 {
        let p = results.drop_last();
        assert forall|i: int, j: int|
            0 <= i < p.len() && 0 <= j < p[i].text_blocks@.len() implies (#[trigger] p[i].text_blocks@[j]).key() != key by {
            assert(p[i] == results[i]);
        }
        lemma_text_queries_empty(p, key);
        let last = results.last();
        assert(last == results[results.len() - 1]);
        assert forall|j: int| 0 <= j < last.text_blocks@.len() implies (#[trigger] last.text_blocks@[j]).key() != key by {
            assert(results[results.len() - 1].text_blocks@[j] == last.text_blocks@[j]);
        }
        lemma_count_key_zero(last.text_blocks@, key);
        assert(text_queries(p, key) + repeat_query(0, last.query_index) =~= Seq::<usize>::empty());
    }
}

proof fn lemma_merged_texts_queries(results: Seq<QuerySearchResult>, shift: bool)
    ensures
        forall|m: int|
            0 <= m < merged_texts(results, shift).len() ==> (#[trigger] merged_texts(results, shift)[m]).1 == text_queries(
                results,
                merged_texts(results, shift)[m].0.key(),
            ),
    decreases results.len(),
{
    if results.len() > 0 {
        let p = results.drop_last();
        let last = results.last();
        let e = merged_texts(p, shift);
        let r = merged_texts(results, shift);
        lemma_merged_texts_queries(p, shift);
        lemma_merged_unique(p, shift);
        lemma_merged_texts_keeps_keys(p, shift);
        lemma_merge_blocks_queries(e, last.text_blocks@, last.query_index, shift);
        assert(r == merge_blocks(e, last.text_blocks@, last.query_index, shift));
        assert forall|m: int| 0 <= m < r.len() implies (#[trigger] r[m]).1 == text_queries(results, r[m].0.key()) by {
            let key = r[m].0.key();
            if m < e.len() {
                assert(e[m].1 == text_queries(p, key));
            } else {
                assert(!has_entry_key(e, key));
                assert forall|i: int, j: int|
                    0 <= i < p.len() && 0 <= j < p[i].text_blocks@.len() implies (#[trigger] p[i].text_blocks@[j]).key()
                    != key by {
                    assert(has_entry_key(e, p[i].text_blocks@[j].key()));
                }
                lemma_text_queries_empty(p, key);
                assert(text_queries(p, key) + repeat_query(count_key(last.text_blocks@, key), last.query_index)
                    =~= repeat_query(count_key(last.text_blocks@, key), last.query_index));
            }
        }
    }
}

/// Each merged entry records the queries that found its hash, the ones the
/// multi-query bonus counts: a query's index once for every block of its
/// result with that hash, in query order.
pub proof fn law_merge_records_queries(results: Seq<QuerySearchResult>, shift: bool)
    ensures
        forall|m: int|
            0 <= m < merged_code(results, shift).len() ==> (#[trigger] merged_code(results, shift)[m]).1
                == code_queries(results, merged_code(results, shift)[m].0.key()),
        forall|m: int|
            0 <= m < merged_docs(results, shift).len() ==> (#[trigger] merged_docs(results, shift)[m]).1
                == doc_queries(results, merged_docs(results, shift)[m].0.key()),
        forall|m: int|
            0 <= m < merged_texts(results, shift).len() ==> (#[trigger] merged_texts(results, shift)[m]).1
                == text_queries(results, merged_texts(results, shift)[m].0.key()),
{
    lemma_merged_code_queries(results, shift);
    lemma_merged_docs_queries(results, shift);
    lemma_merged_texts_queries(results, shift);
}

/// Whether `x` is one of the entries, one of the blocks, or, when lines
/// move, one of the blocks with its lines moved down by one.
spec fn origin_in<B: ResultBlock>(entries: Seq<(B, Seq<usize>)>, blocks: Seq<B>, shift: bool, x: B) -> bool {
    ||| exists|k: int| 0 <= k < entries.len() && (#[trigger] entries[k]).0 == x
    ||| exists|i: int| 0 <= i < blocks.len() && ((#[trigger] blocks[i]) == x || (shift && blocks[i].shifted() == x))
}

proof fn lemma_merge_blocks_origin<B: ResultBlock>(
    entries: Seq<(B, Seq<usize>)>,
    blocks: Seq<B>,
    qi: usize,
    shift: bool,
)
    ensures
        forall|m: int|
            0 <= m < merge_blocks(entries, blocks, qi, shift).len() ==> origin_in(
                entries,
                blocks,
                shift,
                (#[trigger] merge_blocks(entries, blocks, qi, shift)[m]).0,
            ),
    decreases blocks.len(),
{
    let r = merge_blocks(entries, blocks, qi, shift);
    if blocks.len() == 0 {
        assert forall|m: int| 0 <= m < r.len() implies origin_in(entries, blocks, shift, (#[trigger] r[m]).0) by {
            assert(entries[m] == r[m]);
        }
    } else {
        let d = blocks.drop_last();
        let b = blocks.last();
        let prev = merge_blocks(entries, d, qi, shift);
        lemma_merge_blocks_origin(entries, d, qi, shift);
        assert(r == merge_step(prev, b, qi, shift));
        lemma_key_index_from(prev, b.key(), 0);
        let j = key_index_from(prev, b.key(), 0);
        assert(blocks[blocks.len() - 1] == b);
        assert forall|m: int| 0 <= m < r.len() implies origin_in(entries, blocks, shift, (#[trigger] r[m]).0) by {
            let fresh = if j < 0 {
                m == prev.len()
            } else {
                m == j && distance_lt(b.dist(), prev[j].0.dist())
            };
            if !fresh {
                assert(r[m].0 == prev[m].0);
                assert(origin_in(entries, d, shift, prev[m].0));
                if exists|i: int| 0 <= i < d.len() && ((#[trigger] d[i]) == prev[m].0 || (shift && d[i].shifted()
                    == prev[m].0)) {
                    let i = choose|i: int|
                        0 <= i < d.len() && ((#[trigger] d[i]) == prev[m].0 || (shift && d[i].shifted() == prev[m].0));
                    assert(blocks[i] == d[i]);
                }
            }
        }
    }
}

proof fn lemma_merged_code_origin(results: Seq<QuerySearchResult>, shift: bool)
    ensures
        forall|m: int|
            0 <= m < merged_code(results, shift).len() ==> exists|i: int, j: int|
                0 <= i < results.len() && 0 <= j < results[i].code_blocks@.len() && ((#[trigger] results[i].code_blocks@[j])
                    == (#[trigger] merged_code(results, shift)[m]).0 || (shift && results[i].code_blocks@[j].shifted()
                    == merged_code(results, shift)[m].0)),
    decreases results.len(),
{
    if results.len() > 0 {
        let p = results.drop_last();
        let last = results.last();
        let e = merged_code(p, shift);
        let r = merged_code(results, shift);
        lemma_merged_code_origin(p, shift);
        lemma_merge_blocks_origin(e, last.code_blocks@, last.query_index, shift);
        assert(r == merge_blocks(e, last.code_blocks@, last.query_index, shift));
        assert forall|i: int| 0 <= i < p.len() implies #[trigger] results[i] == p[i] by {}
        assert(results[results.len() - 1] == last);
        assert forall|m: int| 0 <= m < r.len() implies exists|i: int, j: int|
            0 <= i < results.len() && 0 <= j < results[i].code_blocks@.len() && ((#[trigger] results[i].code_blocks@[j])
                == (#[trigger] r[m]).0 || (shift && results[i].code_blocks@[j].shifted() == r[m].0)) by {
            let x = r[m].0;
            assert(origin_in(e, last.code_blocks@, shift, x));
            if exists|k: int| 0 <= k < e.len() && (#[trigger] e[k]).0 == x {
                let k = choose|k: int| 0 <= k < e.len() && (#[trigger] e[k]).0 == x;
                let (i, j) = choose|i: int, j: int|
                    0 <= i < p.len() && 0 <= j < p[i].code_blocks@.len() && ((#[trigger] p[i].code_blocks@[j]) == (#[trigger] e[k]).0
                        || (shift && p[i].code_blocks@[j].shifted() == e[k].0));
                assert(results[i].code_blocks@[j] == p[i].code_blocks@[j]);
            } else {
                let j = choose|j: int|
                    0 <= j < last.code_blocks@.len() && ((#[trigger] last.code_blocks@[j]) == x || (shift
                        && last.code_blocks@[j].shifted() == x));
                assert(results[results.len() - 1].code_blocks@[j] == last.code_blocks@[j]);
            }
        }
    }
}

proof fn lemma_merged_docs_origin(results: Seq<QuerySearchResult>, shift: bool)
    ensures
        forall|m: int|
            0 <= m < merged_docs(results, shift).len() ==> exists|i: int, j: int|
                0 <= i < results.len() && 0 <= j < results[i].doc_blocks@.len() && ((#[trigger] results[i].doc_blocks@[j])
                    == (#[trigger] merged_docs(results, shift)[m]).0 || (shift && results[i].doc_blocks@[j].shifted()
                    == merged_docs(results, shift)[m].0)),
    decreases results.len(),
{
    if results.len() > 0 {
        let p = results.drop_last();
        let last = results.last();
        let e = merged_docs(p, shift);
        let r = merged_docs(results, shift);
        lemma_merged_docs_origin(p, shift);
        lemma_merge_blocks_origin(e, last.doc_blocks@, last.query_index, shift);
        assert(r == merge_blocks(e, last.doc_blocks@, last.query_index, shift));
        assert forall|i: int| 0 <= i < p.len() implies #[trigger] results[i] == p[i] by {}
        assert(results[results.len() - 1] == last);
        assert forall|m: int| 0 <= m < r.len() implies exists|i: int, j: int|
            0 <= i < results.len() && 0 <= j < results[i].doc_blocks@.len() && ((#[trigger] results[i].doc_blocks@[j])
                == (#[trigger] r[m]).0 || (shift && results[i].doc_blocks@[j].shifted() == r[m].0)) by {
            let x = r[m].0;
            assert(origin_in(e, last.doc_blocks@, shift, x));
            if exists|k: int| 0 <= k < e.len() && (#[trigger] e[k]).0 == x {
                let k = choose|k: int| 0 <= k < e.len() && (#[trigger] e[k]).0 == x;
                let (i, j) = choose|i: int, j: int|
                    0 <= i < p.len() && 0 <= j < p[i].doc_blocks@.len() && ((#[trigger] p[i].doc_blocks@[j]) == (#[trigger] e[k]).0
                        || (shift && p[i].doc_blocks@[j].shifted() == e[k].0));
                assert(results[i].doc_blocks@[j] == p[i].doc_blocks@[j]);
            } else {
                let j = choose|j: int|
                    0 <= j < last.doc_blocks@.len() && ((#[trigger] last.doc_blocks@[j]) == x || (shift
                        && last.doc_blocks@[j].shifted() == x));
                assert(results[results.len() - 1].doc_blocks@[j] == last.doc_blocks@[j]);
            }
        }
    }
}

proof fn lemma_merged_texts_origin(results: Seq<QuerySearchResult>, shift: bool)
    ensures
        forall|m: int|
            0 <= m < merged_texts(results, shift).len() ==> exists|i: int, j: int|
                0 <= i < results.len() && 0 <= j < results[i].text_blocks@.len() && ((#[trigger] results[i].text_blocks@[j])
                    == (#[trigger] merged_texts(results, shift)[m]).0 || (shift && results[i].text_blocks@[j].shifted()
                    == merged_texts(results, shift)[m].0)),
    decreases results.len(),
{
    if results.len() > 0 {
        let p = results.drop_last();
        let last = results.last();
        let e = merged_texts(p, shift);
        let r = merged_texts(results, shift);
        lemma_merged_texts_origin(p, shift);
        lemma_merge_blocks_origin(e, last.text_blocks@, last.query_index, shift);
        assert(r == merge_blocks(e, last.text_blocks@, last.query_index, shift));
        assert forall|i: int| 0 <= i < p.len() implies #[trigger] results[i] == p[i] by {}
        assert(results[results.len() - 1] == last);
        assert forall|m: int| 0 <= m < r.len() implies exists|i: int, j: int|
            0 <= i < results.len() && 0 <= j < results[i].text_blocks@.len() && ((#[trigger] results[i].text_blocks@[j])
                == (#[trigger] r[m]).0 || (shift && results[i].text_blocks@[j].shifted() == r[m].0)) by {
            let x = r[m].0;
            assert(origin_in(e, last.text_blocks@, shift, x));
            if exists|k: int| 0 <= k < e.len() && (#[trigger] e[k]).0 == x {
                let k = choose|k: int| 0 <= k < e.len() && (#[trigger] e[k]).0 == x;
                let (i, j) = choose|i: int, j: int|
                    0 <= i < p.len() && 0 <= j < p[i].text_blocks@.len() && ((#[trigger] p[i].text_blocks@[j]) == (#[trigger] e[k]).0
                        || (shift && p[i].text_blocks@[j].shifted() == e[k].0));
                assert(results[i].text_blocks@[j] == p[i].text_blocks@[j]);
            } else {
                let j = choose|j: int|
                    0 <= j < last.text_blocks@.len() && ((#[trigger] last.text_blocks@[j]) == x || (shift
                        && last.text_blocks@[j].shifted() == x));
                assert(results[results.len() - 1].text_blocks@[j] == last.text_blocks@[j]);
            }
        }
    }
}

/// The merge keeps only blocks that the queries found: each merged block is
/// a found block as it is, or, where lines move (`shift`), possibly a found
/// block with its lines moved down by one.
pub proof fn law_merge_keeps_found_blocks(results: Seq<QuerySearchResult>, shift: bool)
    ensures
        forall|m: int|
            0 <= m < merged_code(results, shift).len() ==> exists|i: int, j: int|
                0 <= i < results.len() && 0 <= j < results[i].code_blocks@.len() && ((
                #[trigger] results[i].code_blocks@[j]) == (#[trigger] merged_code(results, shift)[m]).0 || (shift
                    && results[i].code_blocks@[j].shifted() == merged_code(results, shift)[m].0)),
        forall|m: int|
            0 <= m < merged_docs(results, shift).len() ==> exists|i: int, j: int|
                0 <= i < results.len() && 0 <= j < results[i].doc_blocks@.len() && ((
                #[trigger] results[i].doc_blocks@[j]) == (#[trigger] merged_docs(results, shift)[m]).0 || (shift
                    && results[i].doc_blocks@[j].shifted() == merged_docs(results, shift)[m].0)),
        forall|m: int|
            0 <= m < merged_texts(results, shift).len() ==> exists|i: int, j: int|
                0 <= i < results.len() && 0 <= j < results[i].text_blocks@.len() && ((
                #[trigger] results[i].text_blocks@[j]) == (#[trigger] merged_texts(results, shift)[m]).0 || (shift
                    && results[i].text_blocks@[j].shifted() == merged_texts(results, shift)[m].0)),
{
    lemma_merged_code_origin(results, shift);
    lemma_merged_docs_origin(results, shift);
    lemma_merged_texts_origin(results, shift);
}

/// Of the blocks that the queries found with the same hash, the merge keeps
/// one with the lowest distance: no found copy has a lower distance than
/// the kept block, and the kept distance is that of a found copy.
pub proof fn law_merge_keeps_closest(results: Seq<QuerySearchResult>, shift: bool)
    ensures
        forall|m: int, i: int, j: int|
            0 <= m < merged_code(results, shift).len() && 0 <= i < results.len() && 0 <= j
                < results[i].code_blocks@.len() && (#[trigger] results[i].code_blocks@[j]).key() == (
            #[trigger] merged_code(results, shift)[m]).0.key() ==> !distance_lt(
                results[i].code_blocks@[j].dist(),
                merged_code(results, shift)[m].0.dist(),
            ),
        forall|m: int|
            0 <= m < merged_code(results, shift).len() ==> exists|i: int, j: int|
                0 <= i < results.len() && 0 <= j < results[i].code_blocks@.len() && (
                #[trigger] results[i].code_blocks@[j]).key() == (#[trigger] merged_code(results, shift)[m]).0.key()
                    && results[i].code_blocks@[j].dist() == merged_code(results, shift)[m].0.dist(),
        forall|m: int, i: int, j: int|
            0 <= m < merged_docs(results, shift).len() && 0 <= i < results.len() && 0 <= j
                < results[i].doc_blocks@.len() && (#[trigger] results[i].doc_blocks@[j]).key() == (
            #[trigger] merged_docs(results, shift)[m]).0.key() ==> !distance_lt(
                results[i].doc_blocks@[j].dist(),
                merged_docs(results, shift)[m].0.dist(),
            ),
        forall|m: int|
            0 <= m < merged_docs(results, shift).len() ==> exists|i: int, j: int|
                0 <= i < results.len() && 0 <= j < results[i].doc_blocks@.len() && (
                #[trigger] results[i].doc_blocks@[j]).key() == (#[trigger] merged_docs(results, shift)[m]).0.key()
                    && results[i].doc_blocks@[j].dist() == merged_docs(results, shift)[m].0.dist(),
        forall|m: int, i: int, j: int|
            0 <= m < merged_texts(results, shift).len() && 0 <= i < results.len() && 0 <= j
                < results[i].text_blocks@.len() && (#[trigger] results[i].text_blocks@[j]).key() == (
            #[trigger] merged_texts(results, shift)[m]).0.key() ==> !distance_lt(
                results[i].text_blocks@[j].dist(),
                merged_texts(results, shift)[m].0.dist(),
            ),
        forall|m: int|
            0 <= m < merged_texts(results, shift).len() ==> exists|i: int, j: int|
                0 <= i < results.len() && 0 <= j < results[i].text_blocks@.len() && (
                #[trigger] results[i].text_blocks@[j]).key() == (#[trigger] merged_texts(results, shift)[m]).0.key()
                    && results[i].text_blocks@[j].dist() == merged_texts(results, shift)[m].0.dist(),
{
    lemma_merged_code_closest(results, shift);
    lemma_merged_docs_closest(results, shift);
    lemma_merged_texts_closest(results, shift);
}

/// The merged lists hold each hash at most once, keep only blocks within the
/// distance threshold, and are sorted by distance (closest first, blocks
/// without a distance last); they hold exactly the merged blocks that pass
/// the threshold after the bonus. Before filtering, every hash that some
/// query found has an entry.
pub proof fn law_merged_results(
    results: Seq<QuerySearchResult>,
    total: nat,
    threshold: int,
    shift: bool,
)
    ensures
        unique_keys(final_results(merged_code(results, shift), total, threshold)),
        unique_keys(final_results(merged_docs(results, shift), total, threshold)),
        unique_keys(final_results(merged_texts(results, shift), total, threshold)),
        sorted_by_distance(final_results(merged_code(results, shift), total, threshold)),
        sorted_by_distance(final_results(merged_docs(results, shift), total, threshold)),
        sorted_by_distance(final_results(merged_texts(results, shift), total, threshold)),
        forall|i: int|
            0 <= i < final_results(merged_code(results, shift), total, threshold).len()
                ==> within_threshold(
                (#[trigger] final_results(merged_code(results, shift), total, threshold)[i]).distance,
                threshold,
            ),
        forall|i: int|
            0 <= i < final_results(merged_docs(results, shift), total, threshold).len()
                ==> within_threshold(
                (#[trigger] final_results(merged_docs(results, shift), total, threshold)[i]).distance,
                threshold,
            ),
        forall|i: int|
            0 <= i < final_results(merged_texts(results, shift), total, threshold).len()
                ==> within_threshold(
                (#[trigger] final_results(merged_texts(results, shift), total, threshold)[i]).distance,
                threshold,
            ),
        final_results(merged_code(results, shift), total, threshold).to_multiset()
            == bonus_and_filter(merged_code(results, shift), total, threshold).to_multiset(),
        final_results(merged_docs(results, shift), total, threshold).to_multiset()
            == bonus_and_filter(merged_docs(results, shift), total, threshold).to_multiset(),
        final_results(merged_texts(results, shift), total, threshold).to_multiset()
            == bonus_and_filter(merged_texts(results, shift), total, threshold).to_multiset(),
        forall|i: int, j: int|
            0 <= i < results.len() && 0 <= j < results[i].code_blocks@.len() ==> has_entry_key(
                merged_code(results, shift),
                (#[trigger] results[i].code_blocks@[j]).hash@,
            ),
        forall|i: int, j: int|
            0 <= i < results.len() && 0 <= j < results[i].doc_blocks@.len() ==> has_entry_key(
                merged_docs(results, shift),
                (#[trigger] results[i].doc_blocks@[j]).hash@,
            ),
        forall|i: int, j: int|
            0 <= i < results.len() && 0 <= j < results[i].text_blocks@.len() ==> has_entry_key(
                merged_texts(results, shift),
                (#[trigger] results[i].text_blocks@[j]).hash@,
            ),
{
    lemma_merged_unique(results, shift);
    lemma_final_results(merged_code(results, shift), total, threshold);
    lemma_final_results(merged_docs(results, shift), total, threshold);
    lemma_final_results(merged_texts(results, shift), total, threshold);
    lemma_merged_code_keeps_keys(results, shift);
    lemma_merged_docs_keeps_keys(results, shift);
    lemma_merged_texts_keeps_keys(results, shift);
}

} // verus!
