use vstd::prelude::*;
use crate::blocks::{CodeBlock, DocumentBlock, ResultBlock, TextBlock};
use crate::text::{is_white_space, is_whitespace, to_chars};

verus! {

broadcast use vstd::seq_lib::group_seq_properties;

// ---------------------------------------------------------------------------
// Character classes (`char` methods of std)
// ---------------------------------------------------------------------------

/// Whether `char::is_alphanumeric` holds of `c` (Unicode `Alphabetic` or
/// `Numeric`).
pub uninterp spec fn unicode_alphanumeric(c: char) -> bool;

/// Whether `char::is_uppercase` holds of `c` (Unicode `Uppercase`).
pub uninterp spec fn unicode_uppercase(c: char) -> bool;

/// Whether `char::is_lowercase` holds of `c` (Unicode `Lowercase`).
pub uninterp spec fn unicode_lowercase(c: char) -> bool;

/// `char::is_alphanumeric`. The contract names the result and states what
/// it is on ASCII characters: the digits and the Latin letters.
#[verifier::external_body]
fn char_is_alphanumeric(c: char) -> (r: bool)
    ensures
        r == unicode_alphanumeric(c),
        (c as u32) < 128 ==> (r <==> (('0' <= c && c <= '9') || ('a' <= c && c <= 'z') || ('A' <= c
            && c <= 'Z'))),
{
    c.is_alphanumeric()
}

/// `char::is_uppercase`. The contract names the result and states what it
/// is on ASCII characters: the letters `A` to `Z`.
#[verifier::external_body]
fn char_is_uppercase(c: char) -> (r: bool)
    ensures
        r == unicode_uppercase(c),
        (c as u32) < 128 ==> (r <==> ('A' <= c && c <= 'Z')),
{
    c.is_uppercase()
}

/// `char::is_lowercase`. The contract names the result and states what it
/// is on ASCII characters: the letters `a` to `z`.
#[verifier::external_body]
fn char_is_lowercase(c: char) -> (r: bool)
    ensures
        r == unicode_lowercase(c),
        (c as u32) < 128 ==> (r <==> ('a' <= c && c <= 'z')),
{
    c.is_lowercase()
}

/// Whether `c` is alphanumeric (`char::is_alphanumeric`): on ASCII the
/// digits and the Latin letters, elsewhere as Unicode has it.
pub open spec fn alphanumeric_char(c: char) -> bool {
    if (c as u32) < 128 {
        ('0' <= c && c <= '9') || ('a' <= c && c <= 'z') || ('A' <= c && c <= 'Z')
    } else {
        unicode_alphanumeric(c)
    }
}

/// Whether `c` is uppercase (`char::is_uppercase`): on ASCII the letters
/// `A` to `Z`, elsewhere as Unicode has it.
pub open spec fn uppercase_char(c: char) -> bool {
    if (c as u32) < 128 {
        'A' <= c && c <= 'Z'
    } else {
        unicode_uppercase(c)
    }
}

/// Whether `c` is lowercase (`char::is_lowercase`): on ASCII the letters
/// `a` to `z`, elsewhere as Unicode has it.
pub open spec fn lowercase_char(c: char) -> bool {
    if (c as u32) < 128 {
        'a' <= c && c <= 'z'
    } else {
        unicode_lowercase(c)
    }
}

// ---------------------------------------------------------------------------
// Query strategy
// ---------------------------------------------------------------------------

/// The number of words (maximal runs of non-whitespace characters) in the
/// first `n` characters of `s`.
pub open spec fn word_count_prefix(s: Seq<char>, n: int) -> nat
    decreases n,
{
    if n <= 0 || n > s.len() {
        0
    } else {
        word_count_prefix(s, n - 1) + if !is_white_space(s[n - 1]) && (n == 1 || is_white_space(
            s[n - 2],
        )) {
            1nat
        } else {
            0nat
        }
    }
}

/// The number of words of `s` (`split_whitespace().count()`).
pub open spec fn word_count(s: Seq<char>) -> nat {
    word_count_prefix(s, s.len() as int)
}

/// Whether every character of `s` is alphanumeric or `_`.
pub open spec fn is_identifier(s: Seq<char>) -> bool {
    forall|i: int| 0 <= i < s.len() ==> alphanumeric_char(#[trigger] s[i]) || s[i] == '_'
}

/// Whether `s` holds both an uppercase and a lowercase character.
pub open spec fn has_camel_case(s: Seq<char>) -> bool {
    (exists|i: int| 0 <= i < s.len() && uppercase_char(#[trigger] s[i])) && (exists|i: int|
        0 <= i < s.len() && lowercase_char(#[trigger] s[i]))
}

/// How much the keyword (BM25) and the vector ranking count in the fusion,
/// in percent.
#[derive(Clone, Copy, Debug, PartialEq, Eq, Structural)]
pub struct QueryStrategy {
    pub bm25_weight: u32,
    pub vector_weight: u32,
}

/// The weights for a query: short queries, identifiers and camel case lean
/// on keywords (80/20), long queries of more than five words on vectors
/// (30/70), the rest is even (50/50).
pub open spec fn strategy_for(query: Seq<char>) -> QueryStrategy {
    if word_count(query) <= 2 || is_identifier(query) || has_camel_case(query) {
        QueryStrategy { bm25_weight: 80, vector_weight: 20 }
    } else if word_count(query) > 5 {
        QueryStrategy { bm25_weight: 30, vector_weight: 70 }
    } else {
        QueryStrategy { bm25_weight: 50, vector_weight: 50 }
    }
}

/// The keyword and vector weights of every query add up to 100 percent,
/// and the keyword weight is one of 80, 50 and 30.
pub proof fn law_strategy_weights(query: Seq<char>)
    ensures
        strategy_for(query).bm25_weight + strategy_for(query).vector_weight == 100,
        strategy_for(query).bm25_weight == 80 || strategy_for(query).bm25_weight == 50
            || strategy_for(query).bm25_weight == 30,
{
}

impl QueryStrategy {
    /// The fusion weights for a query.
    pub fn from_query(query: &str) -> (r: Self)
        ensures
            r == strategy_for(query@),
    {
        let chars = to_chars(query);
        let n = chars.len();
        let mut words: usize = 0;
        let mut identifier = true;
        let mut upper = false;
        let mut lower = false;
        for i in 0..n
            invariant
                n == chars@.len(),
                words == word_count_prefix(chars@, i as int),
                words <= i,
                identifier == (forall|j: int|
                    0 <= j < i ==> alphanumeric_char(#[trigger] chars@[j]) || chars@[j] == '_'),
                upper == (exists|j: int| 0 <= j < i && uppercase_char(#[trigger] chars@[j])),
                lower == (exists|j: int| 0 <= j < i && lowercase_char(#[trigger] chars@[j])),
        {
            let c = chars[i];
            let ws = is_whitespace(c);
            if !ws && (i == 0 || is_whitespace(chars[i - 1])) {
                words = words + 1;
            }
            if !(char_is_alphanumeric(c) || c == '_') {
                identifier = false;
            }
            if char_is_uppercase(c) {
                upper = true;
            }
            if char_is_lowercase(c) {
                lower = true;
            }
        }
        if words <= 2 || identifier || (upper && lower) {
            QueryStrategy { bm25_weight: 80, vector_weight: 20 }
        } else if words > 5 {
            QueryStrategy { bm25_weight: 30, vector_weight: 70 }
        } else {
            QueryStrategy { bm25_weight: 50, vector_weight: 50 }
        }
    }
}

// ---------------------------------------------------------------------------
// Reciprocal rank fusion
// ---------------------------------------------------------------------------

/// A keyword search hit. The score is in millionths.
#[derive(Clone, Debug)]
pub struct BM25Result {
    pub hash: String,
    pub path: String,
    pub score: u64,
}

/// A fused search result. The fusion score is in units of `1e-11`: a
/// weight of `w` percent at rank `r` adds `w * 10^9 / (k + r + 1)`.
#[derive(Clone, Debug)]
pub struct HybridResult {
    pub hash: String,
    pub rrf_score: u128,
    pub bm25_rank: Option<usize>,
    pub vector_rank: Option<usize>,
}

/// A fused result as values: hash, score, keyword rank and vector rank.
pub type FusedView = (Seq<char>, int, Option<usize>, Option<usize>);

/// The view of a fused result.
pub open spec fn fused_view(h: HybridResult) -> FusedView {
    (h.hash@, h.rrf_score as int, h.bm25_rank, h.vector_rank)
}

/// The score that a hit at `rank` adds, for a weight in percent.
pub open spec fn rrf_term(weight: nat, k: nat, rank: nat) -> nat {
    weight * 1_000_000_000 / (k + rank + 1)
}

/// The index at or after `i` of the fused result with hash `h`, or `-1`.
pub open spec fn fused_index_from(es: Seq<FusedView>, h: Seq<char>, i: int) -> int
    decreases es.len() - i,
{
    if i < 0 || i >= es.len() {
        -1
    } else if es[i].0 == h {
        i
    } else {
        fused_index_from(es, h, i + 1)
    }
}

/// Adds a hit for `h` at `rank` with score `term`: a new hash starts a
/// result; a known hash adds the score and takes `rank` as its rank in the
/// list the hit came from.
pub open spec fn fuse_one(es: Seq<FusedView>, h: Seq<char>, term: int, rank: usize, keyword: bool) -> Seq<
    FusedView,
> {
    let j = fused_index_from(es, h, 0);
    if j < 0 {
        es.push(
            (
                h,
                term,
                if keyword {
                    Some(rank)
                } else {
                    None
                },
                if keyword {
                    None
                } else {
                    Some(rank)
                },
            ),
        )
    } else {
        let e = es[j];
        es.update(
            j,
            (
                e.0,
                e.1 + term,
                if keyword {
                    Some(rank)
                } else {
                    e.2
                },
                if keyword {
                    e.3
                } else {
                    Some(rank)
                },
            ),
        )
    }
}

/// Adds the hits of one ranked list, best first.
pub open spec fn fuse_list(es: Seq<FusedView>, hashes: Seq<Seq<char>>, weight: nat, k: nat, keyword: bool) -> Seq<
    FusedView,
>
    decreases hashes.len(),
{
    if hashes.len() == 0 {
        es
    } else {
        let r = (hashes.len() - 1) as nat;
        fuse_one(
            fuse_list(es, hashes.drop_last(), weight, k, keyword),
            hashes.last(),
            rrf_term(weight, k, r) as int,
            r as usize,
            keyword,
        )
    }
}

/// The first position at or after `i` whose score is below `x`'s, or the
/// length of `s`.
pub open spec fn score_position(s: Seq<FusedView>, x: FusedView, i: int) -> int
    decreases s.len() - i,
{
    if i < 0 || i >= s.len() {
        s.len() as int
    } else if s[i].1 < x.1 {
        i
    } else {
        score_position(s, x, i + 1)
    }
}

/// `s` sorted by score, highest first; equal scores keep their order.
pub open spec fn sort_by_score(s: Seq<FusedView>) -> Seq<FusedView>
    decreases s.len(),
{
    if s.len() == 0 {
        seq![]
    } else {
        let t = sort_by_score(s.drop_last());
        t.insert(score_position(t, s.last(), 0), s.last())
    }
}

/// The fused ranking of a keyword list and a vector list.
pub open spec fn fused_ranking(
    keyword: Seq<Seq<char>>,
    vector: Seq<Seq<char>>,
    strategy: QueryStrategy,
    k: nat,
) -> Seq<FusedView> {
    sort_by_score(
        fuse_list(
            fuse_list(seq![], keyword, strategy.bm25_weight as nat, k, true),
            vector,
            strategy.vector_weight as nat,
            k,
            false,
        ),
    )
}

/// The largest score one hit can add.
pub open spec fn max_term() -> int {
    4_294_967_295_000_000_000int
}

fn exec_rrf_term(weight: u32, k: u64, rank: usize) -> (r: u128)
    ensures
        r == rrf_term(weight as nat, k as nat, rank as nat),
        r <= max_term(),
{
    let num: u128 = weight as u128 * 1_000_000_000;
    let den: u128 = k as u128 + rank as u128 + 1;
    assert(num / den <= num) by (nonlinear_arith)
        requires
            den >= 1,
            num >= 0,
    ;
    num / den
}

fn fuse_hash(es: &mut Vec<HybridResult>, hash: &String, term: u128, rank: usize, keyword: bool, bound: Ghost<int>)
    requires
        forall|i: int| 0 <= i < old(es)@.len() ==> (#[trigger] old(es)@[i]).rrf_score <= bound@,
        bound@ >= 0,
        bound@ + max_term() <= u128::MAX,
        term <= max_term(),
    ensures
        final(es)@.map_values(|h: HybridResult| fused_view(h)) == fuse_one(
            old(es)@.map_values(|h: HybridResult| fused_view(h)),
            hash@,
            term as int,
            rank,
            keyword,
        ),
        forall|i: int| 0 <= i < final(es)@.len() ==> (#[trigger] final(es)@[i]).rrf_score <= bound@ + max_term(),
{
    let ghost vs = es@.map_values(|h: HybridResult| fused_view(h));
    let mut j: usize = 0;
    while j < es.len() && !(es[j].hash == *hash)
        invariant
            0 <= j <= es@.len(),
            vs == es@.map_values(|h: HybridResult| fused_view(h)),
            fused_index_from(vs, hash@, 0) == fused_index_from(vs, hash@, j as int),
        decreases es@.len() - j,
    {
        j = j + 1;
    }
    if j < es.len() {
        assert(fused_index_from(vs, hash@, j as int) == j);
        let e = es.remove(j);
        assert(e.rrf_score <= bound@);
        let updated = HybridResult {
            hash: e.hash,
            rrf_score: e.rrf_score + term,
            bm25_rank: if keyword {
                Some(rank)
            } else {
                e.bm25_rank
            },
            vector_rank: if keyword {
                e.vector_rank
            } else {
                Some(rank)
            },
        };
        es.insert(j, updated);
        assert(es@.map_values(|h: HybridResult| fused_view(h)) =~= fuse_one(vs, hash@, term as int, rank, keyword));
    } else {
        assert(fused_index_from(vs, hash@, j as int) == -1);
        let fresh = HybridResult {
            hash: hash.clone(),
            rrf_score: term,
            bm25_rank: if keyword {
                Some(rank)
            } else {
                None
            },
            vector_rank: if keyword {
                None
            } else {
                Some(rank)
            },
        };
        es.push(fresh);
        assert(es@.map_values(|h: HybridResult| fused_view(h)) =~= fuse_one(vs, hash@, term as int, rank, keyword));
    }
}

fn sort_fused(v: Vec<HybridResult>) -> (r: Vec<HybridResult>)
    ensures
        r@.map_values(|h: HybridResult| fused_view(h)) == sort_by_score(v@.map_values(|h: HybridResult| fused_view(h))),
{
    let ghost vs = v@.map_values(|h: HybridResult| fused_view(h));
    let mut out: Vec<HybridResult> = Vec::new();
    for x in it: v
        invariant
            vs == it.seq().map_values(|h: HybridResult| fused_view(h)),
            out@.map_values(|h: HybridResult| fused_view(h)) == sort_by_score(vs.take(it.index() as int)),
    {
        let ghost k = it.index();
        let ghost cur = out@.map_values(|h: HybridResult| fused_view(h));
        assert(vs.take(k + 1).drop_last() =~= vs.take(k as int));
        assert(vs.take(k + 1).last() == fused_view(x));
        let mut p: usize = 0;
        while p < out.len() && out[p].rrf_score >= x.rrf_score
            invariant
                0 <= p <= out@.len(),
                cur == out@.map_values(|h: HybridResult| fused_view(h)),
                score_position(cur, fused_view(x), 0) == score_position(cur, fused_view(x), p as int),
            decreases out@.len() - p,
        {
            p = p + 1;
        }
        let ghost xv = fused_view(x);
        out.insert(p, x);
        assert(out@.map_values(|h: HybridResult| fused_view(h)) =~= cur.insert(p as int, xv));
    }
    assert(vs.take(vs.len() as int) =~= vs);
    out
}

fn fuse_ranked<B: ResultBlock>(
    bm25_results: &[BM25Result],
    vector_results: &[B],
    strategy: &QueryStrategy,
    k: u64,
) -> (r: Vec<HybridResult>)
    ensures
        r@.map_values(|h: HybridResult| fused_view(h)) == fused_ranking(
            bm25_results@.map_values(|b: BM25Result| b.hash@),
            vector_results@.map_values(|b: B| b.key()),
            *strategy,
            k as nat,
        ),
{
    let ghost kw = bm25_results@.map_values(|b: BM25Result| b.hash@);
    let ghost vk = vector_results@.map_values(|b: B| b.key());
    let mut es: Vec<HybridResult> = Vec::new();
    for i in 0..bm25_results.len()
        invariant
            kw == bm25_results@.map_values(|b: BM25Result| b.hash@),
            es@.map_values(|h: HybridResult| fused_view(h)) == fuse_list(
                seq![],
                kw.take(i as int),
                strategy.bm25_weight as nat,
                k as nat,
                true,
            ),
            forall|j: int| 0 <= j < es@.len() ==> (#[trigger] es@[j]).rrf_score <= i * max_term(),
    {
        assert(kw.take(i + 1).drop_last() =~= kw.take(i as int));
        let term = exec_rrf_term(strategy.bm25_weight, k, i);
        assert((i + 1) * max_term() == i * max_term() + max_term()) by (nonlinear_arith);
        assert(i * max_term() + max_term() <= u128::MAX) by (nonlinear_arith)
            requires
                i < 0x1_0000_0000_0000_0000,
        ;
        fuse_hash(&mut es, &bm25_results[i].hash, term, i, true, Ghost(i * max_term()));
    }
    assert(kw.take(kw.len() as int) =~= kw);
    let ghost after_kw = es@.map_values(|h: HybridResult| fused_view(h));
    let n1 = bm25_results.len();
    for i in 0..vector_results.len()
        invariant
            n1 == bm25_results@.len(),
            vk == vector_results@.map_values(|b: B| b.key()),
            es@.map_values(|h: HybridResult| fused_view(h)) == fuse_list(
                after_kw,
                vk.take(i as int),
                strategy.vector_weight as nat,
                k as nat,
                false,
            ),
            forall|j: int| 0 <= j < es@.len() ==> (#[trigger] es@[j]).rrf_score <= (n1 + i) * max_term(),
    {
        assert(vk.take(i + 1).drop_last() =~= vk.take(i as int));
        let term = exec_rrf_term(strategy.vector_weight, k, i);
        assert((n1 + i + 1) * max_term() == (n1 + i) * max_term() + max_term()) by (nonlinear_arith);
        assert((n1 + i) * max_term() + max_term() <= u128::MAX) by (nonlinear_arith)
            requires
                n1 + i < 0x2_0000_0000_0000_0000,
        ;
        fuse_hash(&mut es, vector_results[i].hash_ref(), term, i, false, Ghost((n1 + i) * max_term()));
    }
    assert(vk.take(vk.len() as int) =~= vk);
    sort_fused(es)
}

/// Fuses a keyword ranking and a vector ranking of code blocks: each hit
/// adds its list's weight divided by `k + rank + 1`; the results come
/// sorted by score, highest first.
pub fn reciprocal_rank_fusion(
    bm25_results: &[BM25Result],
    vector_results: &[CodeBlock],
    strategy: &QueryStrategy,
    k: u64,
) -> (r: Vec<HybridResult>)
    ensures
        r@.map_values(|h: HybridResult| fused_view(h)) == fused_ranking(
            bm25_results@.map_values(|b: BM25Result| b.hash@),
            vector_results@.map_values(|b: CodeBlock| b.hash@),
            *strategy,
            k as nat,
        ),
{
    let r = fuse_ranked(bm25_results, vector_results, strategy, k);
    assert(vector_results@.map_values(|b: CodeBlock| b.key()) =~= vector_results@.map_values(
        |b: CodeBlock| b.hash@,
    ));
    r
}

/// Fuses a keyword ranking and a vector ranking of document blocks.
pub fn reciprocal_rank_fusion_docs(
    bm25_results: &[BM25Result],
    vector_results: &[DocumentBlock],
    strategy: &QueryStrategy,
    k: u64,
) -> (r: Vec<HybridResult>)
    ensures
        r@.map_values(|h: HybridResult| fused_view(h)) == fused_ranking(
            bm25_results@.map_values(|b: BM25Result| b.hash@),
            vector_results@.map_values(|b: DocumentBlock| b.hash@),
            *strategy,
            k as nat,
        ),
{
    let r = fuse_ranked(bm25_results, vector_results, strategy, k);
    assert(vector_results@.map_values(|b: DocumentBlock| b.key()) =~= vector_results@.map_values(
        |b: DocumentBlock| b.hash@,
    ));
    r
}

/// Fuses a keyword ranking and a vector ranking of text blocks.
pub fn reciprocal_rank_fusion_text(
    bm25_results: &[BM25Result],
    vector_results: &[TextBlock],
    strategy: &QueryStrategy,
    k: u64,
) -> (r: Vec<HybridResult>)
    ensures
        r@.map_values(|h: HybridResult| fused_view(h)) == fused_ranking(
            bm25_results@.map_values(|b: BM25Result| b.hash@),
            vector_results@.map_values(|b: TextBlock| b.hash@),
            *strategy,
            k as nat,
        ),
{
    let r = fuse_ranked(bm25_results, vector_results, strategy, k);
    assert(vector_results@.map_values(|b: TextBlock| b.key()) =~= vector_results@.map_values(
        |b: TextBlock| b.hash@,
    ));
    r
}

// ---------------------------------------------------------------------------
// Laws of the fusion
// ---------------------------------------------------------------------------

/// Whether no two fused results share a hash.
pub open spec fn unique_hashes(s: Seq<FusedView>) -> bool {
    forall|i: int, j: int| 0 <= i < j < s.len() ==> (#[trigger] s[i]).0 != (#[trigger] s[j]).0
}

/// Whether the fused results are sorted by score, highest first.
pub open spec fn sorted_by_score(s: Seq<FusedView>) -> bool {
    forall|i: int, j: int| 0 <= i < j < s.len() ==> (#[trigger] s[i]).1 >= (#[trigger] s[j]).1
}

/// Whether some fused result has hash `h`.
pub open spec fn has_hash(s: Seq<FusedView>, h: Seq<char>) -> bool {
    exists|m: int| 0 <= m < s.len() && (#[trigger] s[m]).0 == h
}

proof fn lemma_fused_index_from(es: Seq<FusedView>, h: Seq<char>, i: int)
    requires
        0 <= i <= es.len(),
    ensures
        fused_index_from(es, h, i) == -1 || (i <= fused_index_from(es, h, i) < es.len()
            && es[fused_index_from(es, h, i)].0 == h),
        fused_index_from(es, h, i) == -1 ==> forall|k: int| i <= k < es.len() ==> es[k].0 != h,
    decreases es.len() - i,
{
    if i < es.len() && es[i].0 != h {
        lemma_fused_index_from(es, h, i + 1);
    }
}

proof fn lemma_fuse_list(es: Seq<FusedView>, hashes: Seq<Seq<char>>, weight: nat, k: nat, keyword: bool)
    requires
        unique_hashes(es),
    ensures
        unique_hashes(fuse_list(es, hashes, weight, k, keyword)),
        forall|m: int| 0 <= m < es.len() ==> has_hash(fuse_list(es, hashes, weight, k, keyword), (#[trigger] es[m]).0),
        forall|i: int| 0 <= i < hashes.len() ==> has_hash(fuse_list(es, hashes, weight, k, keyword), #[trigger] hashes[i]),
    decreases hashes.len(),
{
    let r = fuse_list(es, hashes, weight, k, keyword);
    if hashes.len() == 0 {
        assert forall|m: int| 0 <= m < es.len() implies has_hash(r, (#[trigger] es[m]).0) by {
            assert(r[m] == es[m]);
        }
    } else {
        let prev = fuse_list(es, hashes.drop_last(), weight, k, keyword);
        lemma_fuse_list(es, hashes.drop_last(), weight, k, keyword);
        let h = hashes.last();
        let rank = (hashes.len() - 1) as nat;
        assert(r == fuse_one(prev, h, rrf_term(weight, k, rank) as int, rank as usize, keyword));
        lemma_fused_index_from(prev, h, 0);
        let j = fused_index_from(prev, h, 0);
        assert(r.len() >= prev.len());
        assert forall|m: int| 0 <= m < prev.len() implies (#[trigger] r[m]).0 == prev[m].0 by {}
        assert forall|x: int, y: int| 0 <= x < y < r.len() implies (#[trigger] r[x]).0 != (#[trigger] r[y]).0 by {
            if y < prev.len() {
                assert(prev[x].0 != prev[y].0);
            } else {
                assert(r[y].0 == h);
                assert(prev[x].0 != h);
            }
        }
        assert forall|m: int| 0 <= m < es.len() implies has_hash(r, (#[trigger] es[m]).0) by {
            assert(has_hash(prev, es[m].0));
            let m1 = choose|m1: int| 0 <= m1 < prev.len() && (#[trigger] prev[m1]).0 == es[m].0;
            assert(r[m1].0 == prev[m1].0);
        }
        assert forall|i: int| 0 <= i < hashes.len() implies has_hash(r, #[trigger] hashes[i]) by {
            if i < hashes.len() - 1 {
                assert(hashes[i] == hashes.drop_last()[i]);
                assert(has_hash(prev, hashes.drop_last()[i]));
                let m1 = choose|m1: int| 0 <= m1 < prev.len() && (#[trigger] prev[m1]).0 == hashes.drop_last()[i];
                assert(r[m1].0 == prev[m1].0);
            } else if j >= 0 {
                assert(r[j].0 == h);
            } else {
                assert(r[prev.len() as int].0 == h);
            }
        }
    }
}

proof fn lemma_score_position(s: Seq<FusedView>, x: FusedView, i: int)
    requires
        0 <= i <= s.len(),
    ensures
        i <= score_position(s, x, i) <= s.len(),
        forall|k: int| i <= k < score_position(s, x, i) ==> (#[trigger] s[k]).1 >= x.1,
        score_position(s, x, i) < s.len() ==> s[score_position(s, x, i)].1 < x.1,
    decreases s.len() - i,
{
    if i < s.len() && s[i].1 >= x.1 {
        lemma_score_position(s, x, i + 1);
    }
}

/// `sort_by_score` sorts, highest first, and keeps every result exactly as
/// often as it was given.
pub proof fn lemma_sort_by_score(s: Seq<FusedView>)
    ensures
        sorted_by_score(sort_by_score(s)),
        sort_by_score(s).to_multiset() == s.to_multiset(),
    decreases s.len(),
{
    if s.len() == 0 {
        assert(sort_by_score(s) =~= s);
    } else {
        let t = sort_by_score(s.drop_last());
        let x = s.last();
        lemma_sort_by_score(s.drop_last());
        let p = score_position(t, x, 0);
        lemma_score_position(t, x, 0);
        let r = t.insert(p, x);
        assert forall|k: int| 0 <= k < r.len() implies #[trigger] r[k] == if k < p {
            t[k]
        } else if k == p {
            x
        } else {
            t[k - 1]
        } by {}
        assert forall|a: int, b: int| 0 <= a < b < r.len() implies (#[trigger] r[a]).1 >= (#[trigger] r[b]).1 by {
            if a < p && b == p {
            } else if a < p && b > p {
                assert(t[a].1 >= t[b - 1].1);
            } else if a == p {
                assert(t[p].1 >= t[b - 1].1);
            } else if a > p {
                assert(t[a - 1].1 >= t[b - 1].1);
            } else {
                assert(t[a].1 >= t[b].1);
            }
        }
        vstd::seq_lib::to_multiset_insert(t, p, x);
        vstd::seq_lib::to_multiset_build(s.drop_last(), x);
        assert(s.drop_last().push(x) =~= s);
    }
}

/// The fusion score that the hits for `h` in one ranked list add: for each
/// position `r` holding `h`, `rrf_term(weight, k, r)`.
pub open spec fn list_score(hashes: Seq<Seq<char>>, h: Seq<char>, weight: nat, k: nat) -> int
    decreases hashes.len(),
{
    if hashes.len() == 0 {
        0
    } else {
        list_score(hashes.drop_last(), h, weight, k) + if hashes.last() == h {
            rrf_term(weight, k, (hashes.len() - 1) as nat) as int
        } else {
            0
        }
    }
}

/// The last position of `h` in a ranked list, if it is there.
pub open spec fn last_rank(hashes: Seq<Seq<char>>, h: Seq<char>) -> Option<usize>
    decreases hashes.len(),
{
    if hashes.len() == 0 {
        None
    } else if hashes.last() == h {
        Some((hashes.len() - 1) as usize)
    } else {
        last_rank(hashes.drop_last(), h)
    }
}

proof fn lemma_absent_hash(hashes: Seq<Seq<char>>, h: Seq<char>, weight: nat, k: nat)
    requires
        forall|i: int| 0 <= i < hashes.len() ==> #[trigger] hashes[i] != h,
    ensures
        list_score(hashes, h, weight, k) == 0,
        last_rank(hashes, h) is None,
    decreases hashes.len(),
{
    if hashes.len() > 0 {
        let d = hashes.drop_last();
        assert forall|i: int| 0 <= i < d.len() implies #[trigger] d[i] != h by {
            assert(d[i] == hashes[i]);
        }
        lemma_absent_hash(d, h, weight, k);
        assert(hashes.last() == hashes[hashes.len() - 1]);
    }
}

/// Fusing one ranked list keeps every result in its place with its hash,
/// adds the list's score for the hash and, where the list holds the hash,
/// takes its last position there as the rank for that list; the new
/// results are for hashes that were not there before.
proof fn lemma_fuse_list_scores(es: Seq<FusedView>, hashes: Seq<Seq<char>>, weight: nat, k: nat, keyword: bool)
    requires
        unique_hashes(es),
        hashes.len() <= usize::MAX,
    ensures
        fuse_list(es, hashes, weight, k, keyword).len() >= es.len(),
        forall|m: int|
            0 <= m < es.len() ==> {
                let x = #[trigger] fuse_list(es, hashes, weight, k, keyword)[m];
                let lr = last_rank(hashes, es[m].0);
                &&& x.0 == es[m].0
                &&& x.1 == es[m].1 + list_score(hashes, es[m].0, weight, k)
                &&& x.2 == (if keyword && lr is Some {
                    lr
                } else {
                    es[m].2
                })
                &&& x.3 == (if !keyword && lr is Some {
                    lr
                } else {
                    es[m].3
                })
            },
        forall|m: int|
            es.len() <= m < fuse_list(es, hashes, weight, k, keyword).len() ==> {
                let x = #[trigger] fuse_list(es, hashes, weight, k, keyword)[m];
                &&& !has_hash(es, x.0)
                &&& x.1 == list_score(hashes, x.0, weight, k)
                &&& x.2 == (if keyword {
                    last_rank(hashes, x.0)
                } else {
                    None
                })
                &&& x.3 == (if keyword {
                    None
                } else {
                    last_rank(hashes, x.0)
                })
            },
    decreases hashes.len(),
{
    let r = fuse_list(es, hashes, weight, k, keyword);
    if hashes.len() > 0 {
        let d = hashes.drop_last();
        let prev = fuse_list(es, d, weight, k, keyword);
        lemma_fuse_list_scores(es, d, weight, k, keyword);
        lemma_fuse_list(es, d, weight, k, keyword);
        let h = hashes.last();
        let rank = (hashes.len() - 1) as nat;
        let term = rrf_term(weight, k, rank) as int;
        assert(r == fuse_one(prev, h, term, rank as usize, keyword));
        lemma_fused_index_from(prev, h, 0);
        let j = fused_index_from(prev, h, 0);
        assert(forall|g: Seq<char>| #[trigger] list_score(hashes, g, weight, k) == list_score(d, g, weight, k) + if h == g {
            term
        } else {
            0
        });
        assert(forall|g: Seq<char>| #[trigger] last_rank(hashes, g) == if h == g {
            Some(rank as usize)
        } else {
            last_rank(d, g)
        });
        if j < 0 {
            assert forall|i: int| 0 <= i < d.len() implies #[trigger] d[i] != h by {
                assert(has_hash(prev, d[i]));
            }
            lemma_absent_hash(d, h, weight, k);
            assert(!has_hash(es, h)) by {
                if has_hash(es, h) {
                    let m = choose|m: int| 0 <= m < es.len() && (#[trigger] es[m]).0 == h;
                    assert(prev[m].0 == h);
                }
            }
            assert forall|m: int| 0 <= m < prev.len() implies #[trigger] r[m] == prev[m] by {}
        } else {
            assert forall|m: int| 0 <= m < prev.len() && m != j implies #[trigger] r[m] == prev[m] by {}
            assert forall|m: int| 0 <= m < prev.len() && m != j implies (#[trigger] prev[m]).0 != h by {
                if m < j {
                    assert(prev[m].0 != prev[j].0);
                } else {
                    assert(prev[j].0 != prev[m].0);
                }
            }
        }
    }
}

/// Each fused result's score is the sum of what its hash's hits add in the
/// keyword list and in the vector list, each list with its weight; its rank
/// in each list is the last position of its hash there, or none when the
/// list does not hold it.
pub proof fn law_fused_scores(
    keyword: Seq<Seq<char>>,
    vector: Seq<Seq<char>>,
    strategy: QueryStrategy,
    k: nat,
)
    requires
        keyword.len() <= usize::MAX,
        vector.len() <= usize::MAX,
    ensures
        forall|i: int|
            0 <= i < fused_ranking(keyword, vector, strategy, k).len() ==> {
                let x = #[trigger] fused_ranking(keyword, vector, strategy, k)[i];
                &&& x.1 == list_score(keyword, x.0, strategy.bm25_weight as nat, k) + list_score(
                    vector,
                    x.0,
                    strategy.vector_weight as nat,
                    k,
                )
                &&& x.2 == last_rank(keyword, x.0)
                &&& x.3 == last_rank(vector, x.0)
            },
{
    let bw = strategy.bm25_weight as nat;
    let vw = strategy.vector_weight as nat;
    let empty: Seq<FusedView> = seq![];
    let a = fuse_list(empty, keyword, bw, k, true);
    let f = fuse_list(a, vector, vw, k, false);
    let r = sort_by_score(f);
    lemma_fuse_list_scores(empty, keyword, bw, k, true);
    lemma_fuse_list(empty, keyword, bw, k, true);
    lemma_fuse_list_scores(a, vector, vw, k, false);
    lemma_sort_by_score(f);
    assert forall|m: int| 0 <= m < f.len() implies {
        let x = #[trigger] f[m];
        &&& x.1 == list_score(keyword, x.0, bw, k) + list_score(vector, x.0, vw, k)
        &&& x.2 == last_rank(keyword, x.0)
        &&& x.3 == last_rank(vector, x.0)
    } by {
        if m < a.len() {
            let y = a[m];
            assert(y.1 == list_score(keyword, y.0, bw, k));
            if last_rank(vector, y.0) is None {
                assert(y.3 is None);
            }
        } else {
            let h = f[m].0;
            assert(!has_hash(a, h));
            assert forall|i: int| 0 <= i < keyword.len() implies #[trigger] keyword[i] != h by {
                assert(has_hash(a, keyword[i]));
            }
            lemma_absent_hash(keyword, h, bw, k);
        }
    }
    assert forall|i: int| 0 <= i < r.len() implies {
        let x = #[trigger] r[i];
        &&& x.1 == list_score(keyword, x.0, bw, k) + list_score(vector, x.0, vw, k)
        &&& x.2 == last_rank(keyword, x.0)
        &&& x.3 == last_rank(vector, x.0)
    } by {
        assert(r.to_multiset().count(r[i]) > 0);
        vstd::seq_lib::to_multiset_contains(f, r[i]);
        let m = choose|m: int| 0 <= m < f.len() && f[m] == r[i];
        assert(f[m] == r[i]);
    }
}

/// The fused ranking holds every hash of either list exactly once, and is
/// sorted by score, highest first.
#[verifier::rlimit(50)]
pub proof fn law_fused_ranking(
    keyword: Seq<Seq<char>>,
    vector: Seq<Seq<char>>,
    strategy: QueryStrategy,
    k: nat,
)
    ensures
        unique_hashes(fused_ranking(keyword, vector, strategy, k)),
        sorted_by_score(fused_ranking(keyword, vector, strategy, k)),
        forall|i: int| 0 <= i < keyword.len() ==> has_hash(fused_ranking(keyword, vector, strategy, k), #[trigger] keyword[i]),
        forall|i: int| 0 <= i < vector.len() ==> has_hash(fused_ranking(keyword, vector, strategy, k), #[trigger] vector[i]),
{
    let empty: Seq<FusedView> = seq![];
    let a = fuse_list(empty, keyword, strategy.bm25_weight as nat, k, true);
    let f = fuse_list(a, vector, strategy.vector_weight as nat, k, false);
    let r = sort_by_score(f);
    lemma_fuse_list(empty, keyword, strategy.bm25_weight as nat, k, true);
    lemma_fuse_list(a, vector, strategy.vector_weight as nat, k, false);
    lemma_sort_by_score(f);
    assert forall|i: int| 0 <= i < r.len() implies exists|m: int| 0 <= m < f.len() && f[m] == #[trigger] r[i] by {
        assert(r.to_multiset().count(r[i]) > 0);
        vstd::seq_lib::to_multiset_contains(f, r[i]);
    }
    assert forall|m: int| 0 <= m < f.len() implies exists|i: int| 0 <= i < r.len() && r[i] == #[trigger] f[m] by {
        assert(f.to_multiset().count(f[m]) > 0);
        vstd::seq_lib::to_multiset_contains(r, f[m]);
    }
    assert(f.no_duplicates()) by {
        assert forall|i: int, j: int| 0 <= i < f.len() && 0 <= j < f.len() && i != j implies f[i] != f[j] by {
            if i < j {
                assert(f[i].0 != f[j].0);
            } else {
                assert(f[j].0 != f[i].0);
            }
        }
    }
    f.lemma_multiset_has_no_duplicates();
    r.lemma_multiset_has_no_duplicates_conv();
    assert forall|x: int, y: int| 0 <= x < y < r.len() implies (#[trigger] r[x]).0 != (#[trigger] r[y]).0 by {
        let kx = choose|m: int| 0 <= m < f.len() && f[m] == r[x];
        let ky = choose|m: int| 0 <= m < f.len() && f[m] == r[y];
        assert(r[x] != r[y]);
        if kx < ky {
            assert(f[kx].0 != f[ky].0);
        } else {
            assert(f[ky].0 != f[kx].0);
        }
    }
    assert forall|i: int| 0 <= i < keyword.len() implies has_hash(r, #[trigger] keyword[i]) by {
        assert(has_hash(a, keyword[i]));
        let m1 = choose|m1: int| 0 <= m1 < a.len() && (#[trigger] a[m1]).0 == keyword[i];
        assert(has_hash(f, a[m1].0));
        let m2 = choose|m2: int| 0 <= m2 < f.len() && (#[trigger] f[m2]).0 == a[m1].0;
        let i2 = choose|i2: int| 0 <= i2 < r.len() && r[i2] == f[m2];
        assert(r[i2].0 == keyword[i]);
    }
    assert forall|i: int| 0 <= i < vector.len() implies has_hash(r, #[trigger] vector[i]) by {
        assert(has_hash(f, vector[i]));
        let m2 = choose|m2: int| 0 <= m2 < f.len() && (#[trigger] f[m2]).0 == vector[i];
        let i2 = choose|i2: int| 0 <= i2 < r.len() && r[i2] == f[m2];
        assert(r[i2].0 == vector[i]);
    }
}

} // verus!
