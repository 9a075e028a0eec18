use vstd::prelude::*;
use crate::blocks::CodeBlock;
use crate::symbols::{
    chars_lt, lemma_seq_lt_irreflexive, lemma_seq_lt_transitive, seq_lt, sorted_unique,
    sorted_unique_list,
};
use crate::text::{char_views, contains_char, has_char, string_of, to_chars};

verus! {

broadcast use vstd::seq_lib::group_seq_properties;

// ---------------------------------------------------------------------------
// The symbols to expand
// ---------------------------------------------------------------------------

/// Whether `char::is_alphabetic` holds of `c` (Unicode `Alphabetic`).
pub uninterp spec fn unicode_alphabetic(c: char) -> bool;

/// `char::is_alphabetic`. The contract names the result and states what it
/// is on ASCII characters: the Latin letters.
#[verifier::external_body]
fn char_is_alphabetic(c: char) -> (r: bool)
    ensures
        r == unicode_alphabetic(c),
        (c as u32) < 128 ==> (r <==> (('a' <= c && c <= 'z') || ('A' <= c && c <= 'Z'))),
{
    c.is_alphabetic()
}

/// Whether `c` is alphabetic (`char::is_alphabetic`): on ASCII the Latin
/// letters, elsewhere as Unicode has it.
pub open spec fn alphabetic_char(c: char) -> bool {
    if (c as u32) < 128 {
        ('a' <= c && c <= 'z') || ('A' <= c && c <= 'Z')
    } else {
        unicode_alphabetic(c)
    }
}

/// Whether a symbol names code worth expanding: it starts with a letter and
/// holds no underscore (names with one are syntax node kinds).
pub open spec fn expandable(s: Seq<char>) -> bool {
    &&& !has_char(s, '_')
    &&& s.len() > 0
    &&& alphabetic_char(s[0])
}

/// The expandable symbols of `s`, in order.
pub open spec fn expandable_symbols(s: Seq<Seq<char>>) -> Seq<Seq<char>>
    decreases s.len(),
{
    if s.len() == 0 {
        seq![]
    } else if expandable(s.last()) {
        expandable_symbols(s.drop_last()).push(s.last())
    } else {
        expandable_symbols(s.drop_last())
    }
}

/// The symbols of a block, as character sequences.
pub open spec fn symbol_views(b: CodeBlock) -> Seq<Seq<char>> {
    b.symbols@.map_values(|s: String| s@)
}

/// The symbols of all blocks, block after block.
pub open spec fn block_symbols(blocks: Seq<CodeBlock>) -> Seq<Seq<char>>
    decreases blocks.len(),
{
    if blocks.len() == 0 {
        seq![]
    } else {
        block_symbols(blocks.drop_last()) + symbol_views(blocks.last())
    }
}

/// The symbols whose definitions an expansion looks up: the expandable
/// symbols of the blocks, sorted, each once.
pub open spec fn expansion_symbols_of(blocks: Seq<CodeBlock>) -> Seq<Seq<char>> {
    sorted_unique(expandable_symbols(block_symbols(blocks)))
}

fn is_expandable(s: &String) -> (r: bool)
    ensures
        r == expandable(s@),
{
    let cs = to_chars(s.as_str());
    !contains_char(cs.as_slice(), '_') && cs.len() > 0 && char_is_alphabetic(cs[0])
}

/// The symbols of the blocks to look up for an expansion: those that start
/// with a letter and hold no underscore, sorted, each once.
pub fn expansion_symbols(blocks: &[CodeBlock]) -> (r: Vec<String>)
    ensures
        r@.map_values(|s: String| s@) == expansion_symbols_of(blocks@),
{
    let mut picked: Vec<String> = Vec::new();
    for i in 0..blocks.len()
        invariant
            picked@.map_values(|s: String| s@) == expandable_symbols(
                block_symbols(blocks@.take(i as int)),
            ),
    {
        let ghost before = block_symbols(blocks@.take(i as int));
        assert(blocks@.take(i + 1).drop_last() =~= blocks@.take(i as int));
        let syms = &blocks[i].symbols;
        let ghost sv = symbol_views(blocks@[i as int]);
        for j in 0..syms.len()
            invariant
                sv == syms@.map_values(|s: String| s@),
                picked@.map_values(|s: String| s@) == expandable_symbols(
                    before + sv.take(j as int),
                ),
        {
            assert((before + sv.take(j + 1)).drop_last() =~= before + sv.take(j as int));
            assert((before + sv.take(j + 1)).last() == sv[j as int]);
            let ghost p0 = picked@.map_values(|s: String| s@);
            if is_expandable(&syms[j]) {
                picked.push(syms[j].clone());
                assert(picked@.map_values(|s: String| s@) =~= p0.push(sv[j as int]));
            }
        }
        assert(sv.take(syms@.len() as int) =~= sv);
    }
    assert(blocks@.take(blocks@.len() as int) =~= blocks@);
    let sorted = sorted_unique_list(&picked);
    let ghost su = char_views(sorted@);
    let mut out: Vec<String> = Vec::new();
    for i in 0..sorted.len()
        invariant
            su == char_views(sorted@),
            out@.map_values(|s: String| s@) == su.take(i as int),
    {
        let s = string_of(sorted[i].as_slice());
        assert(s@ == su[i as int]);
        let ghost o0 = out@.map_values(|s: String| s@);
        out.push(s);
        assert(out@.map_values(|s: String| s@) =~= o0.push(su[i as int]));
        assert(su.take(i + 1) =~= su.take(i as int).push(su[i as int]));
    }
    assert(su.take(sorted@.len() as int) =~= su);
    out
}

// ---------------------------------------------------------------------------
// The blocks that an expansion adds
// ---------------------------------------------------------------------------

/// Whether a block of `bs` has the hash `key`.
pub open spec fn has_hash(bs: Seq<CodeBlock>, key: Seq<char>) -> bool {
    exists|i: int| 0 <= i < bs.len() && (#[trigger] bs[i]).hash@ == key
}

/// The blocks found by the symbol lookups that are new: not among the
/// given blocks and not found earlier, in the order of the lookups.
pub open spec fn new_blocks(given: Seq<CodeBlock>, found: Seq<Option<CodeBlock>>) -> Seq<CodeBlock>
    decreases found.len(),
{
    if found.len() == 0 {
        seq![]
    } else {
        let prev = new_blocks(given, found.drop_last());
        match found.last() {
            Some(b) => if has_hash(given, b.hash@) || has_hash(prev, b.hash@) {
                prev
            } else {
                prev.push(b)
            },
            None => prev,
        }
    }
}

/// How many of the symbols `syms` (counted with repetition) are among
/// `refs`.
pub open spec fn match_count(syms: Seq<Seq<char>>, refs: Seq<Seq<char>>) -> nat
    decreases syms.len(),
{
    if syms.len() == 0 {
        0
    } else {
        match_count(syms.drop_last(), refs) + if refs.contains(syms.last()) {
            1nat
        } else {
            0nat
        }
    }
}

/// Whether `a` is listed before `b` among added blocks: more matching
/// symbols first, then by path, then by start line.
pub open spec fn ranks_before(a: CodeBlock, b: CodeBlock, refs: Seq<Seq<char>>) -> bool {
    let ma = match_count(symbol_views(a), refs);
    let mb = match_count(symbol_views(b), refs);
    ||| ma > mb
    ||| ma == mb && seq_lt(a.path@, b.path@)
    ||| ma == mb && a.path@ == b.path@ && a.start_line < b.start_line
}

/// The first position at or after `i` in `s` whose block `b` ranks before,
/// or the length of `s`.
pub open spec fn rank_position(s: Seq<CodeBlock>, b: CodeBlock, refs: Seq<Seq<char>>, i: int) -> int
    decreases s.len() - i,
{
    if i < 0 || i >= s.len() {
        s.len() as int
    } else if ranks_before(b, s[i], refs) {
        i
    } else {
        rank_position(s, b, refs, i + 1)
    }
}

/// The blocks of `s` in ranking order; blocks that rank alike keep their
/// order (a stable insertion sort).
pub open spec fn rank_sort(s: Seq<CodeBlock>, refs: Seq<Seq<char>>) -> Seq<CodeBlock>
    decreases s.len(),
{
    if s.len() == 0 {
        seq![]
    } else {
        let t = rank_sort(s.drop_last(), refs);
        t.insert(rank_position(t, s.last(), refs, 0), s.last())
    }
}

/// The result of an expansion: the given blocks in their order, then
/// the new blocks found by the lookups, ranked.
pub open spec fn expanded_blocks(
    given: Seq<CodeBlock>,
    found: Seq<Option<CodeBlock>>,
    refs: Seq<Seq<char>>,
) -> Seq<CodeBlock> {
    given + rank_sort(new_blocks(given, found), refs)
}

fn find_hash(bs: &Vec<CodeBlock>, key: &String) -> (r: bool)
    ensures
        r == has_hash(bs@, key@),
{
    let mut i: usize = 0;
    while i < bs.len()
        invariant
            0 <= i <= bs@.len(),
            forall|j: int| 0 <= j < i ==> (#[trigger] bs@[j]).hash@ != key@,
        decreases bs@.len() - i,
    {
        if bs[i].hash == *key {
            return true;
        }
        i = i + 1;
    }
    false
}

fn contains_string(v: &Vec<String>, s: &String) -> (r: bool)
    ensures
        r == v@.map_values(|x: String| x@).contains(s@),
{
    let ghost vs = v@.map_values(|x: String| x@);
    let mut i: usize = 0;
    while i < v.len()
        invariant
            0 <= i <= v@.len(),
            vs == v@.map_values(|x: String| x@),
            forall|j: int| 0 <= j < i ==> vs[j] != s@,
        decreases v@.len() - i,
    {
        if v[i] == *s {
            assert(vs[i as int] == s@);
            return true;
        }
        i = i + 1;
    }
    false
}

fn exec_match_count(b: &CodeBlock, refs: &Vec<String>) -> (r: usize)
    ensures
        r == match_count(symbol_views(*b), refs@.map_values(|x: String| x@)),
{
    let ghost rv = refs@.map_values(|x: String| x@);
    let ghost sv = symbol_views(*b);
    let mut n: usize = 0;
    for i in 0..b.symbols.len()
        invariant
            rv == refs@.map_values(|x: String| x@),
            sv == symbol_views(*b),
            n == match_count(sv.take(i as int), rv),
            n <= i,
    {
        assert(sv.take(i + 1).drop_last() =~= sv.take(i as int));
        if contains_string(refs, &b.symbols[i]) {
            n = n + 1;
        }
    }
    assert(sv.take(b.symbols@.len() as int) =~= sv);
    n
}

fn exec_ranks_before(a: &CodeBlock, ma: usize, b: &CodeBlock, mb: usize) -> (r: bool)
    ensures
        ma > mb ==> r,
        ma < mb ==> !r,
        ma == mb ==> (r <==> (seq_lt(a.path@, b.path@) || (a.path@ == b.path@ && a.start_line
            < b.start_line))),
{
    if ma != mb {
        return ma > mb;
    }
    let ap = to_chars(a.path.as_str());
    let bp = to_chars(b.path.as_str());
    if chars_lt(ap.as_slice(), bp.as_slice()) {
        true
    } else {
        a.path == b.path && a.start_line < b.start_line
    }
}

/// Puts together the result of a symbol expansion. `found` holds what the
/// lookup of each symbol of `symbol_refs` gave, in the same order. The
/// given blocks come first, in their order; then the blocks found that
/// are new (each hash once), those with more symbols among `symbol_refs`
/// first, then by path and start line.
pub fn combine_expansion(
    code_blocks: Vec<CodeBlock>,
    found: Vec<Option<CodeBlock>>,
    symbol_refs: &Vec<String>,
) -> (r: Vec<CodeBlock>)
    ensures
        r@ == expanded_blocks(code_blocks@, found@, symbol_refs@.map_values(|x: String| x@)),
{
    let ghost refs = symbol_refs@.map_values(|x: String| x@);
    let ghost fs = found@;
    let mut added: Vec<CodeBlock> = Vec::new();
    for item in it: found
        invariant
            it.seq() == fs,
            added@ == new_blocks(code_blocks@, fs.take(it.index() as int)),
    {
        let ghost k = it.index();
        assert(fs.take(k + 1).drop_last() =~= fs.take(k as int));
        assert(fs.take(k + 1).last() == item);
        if let Some(b) = item {
            let seen = find_hash(&code_blocks, &b.hash) || find_hash(&added, &b.hash);
            if !seen {
                added.push(b);
            }
        }
    }
    assert(fs.take(fs.len() as int) =~= fs);
    let ghost ns = added@;
    let mut ranked: Vec<CodeBlock> = Vec::new();
    let mut counts: Vec<usize> = Vec::new();
    for b in it: added
        invariant
            it.seq() == ns,
            refs == symbol_refs@.map_values(|x: String| x@),
            ranked@ == rank_sort(ns.take(it.index() as int), refs),
            counts@.len() == ranked@.len(),
            forall|j: int|
                0 <= j < ranked@.len() ==> counts@[j] == match_count(
                    symbol_views(#[trigger] ranked@[j]),
                    refs,
                ),
    {
        let ghost k = it.index();
        assert(ns.take(k + 1).drop_last() =~= ns.take(k as int));
        let mb = exec_match_count(&b, symbol_refs);
        let mut p: usize = 0;
        while p < ranked.len() && !exec_ranks_before(&b, mb, &ranked[p], counts[p])
            invariant
                0 <= p <= ranked@.len(),
                counts@.len() == ranked@.len(),
                forall|j: int|
                    0 <= j < ranked@.len() ==> counts@[j] == match_count(
                        symbol_views(#[trigger] ranked@[j]),
                        refs,
                    ),
                mb == match_count(symbol_views(b), refs),
                rank_position(ranked@, b, refs, 0) == rank_position(ranked@, b, refs, p as int),
            decreases ranked@.len() - p,
        {
            p = p + 1;
        }
        let ghost r0 = ranked@;
        let ghost c0 = counts@;
        ranked.insert(p, b);
        counts.insert(p, mb);
        proof {
            assert forall|j: int| 0 <= j < ranked@.len() implies counts@[j] == match_count(
                symbol_views(#[trigger] ranked@[j]),
                refs,
            ) by {
                if j > p {
                    assert(ranked@[j] == r0[j - 1]);
                    assert(counts@[j] == c0[j - 1]);
                } else if j < p {
                    assert(ranked@[j] == r0[j]);
                    assert(counts@[j] == c0[j]);
                }
            }
        }
    }
    assert(ns.take(ns.len() as int) =~= ns);
    let mut out = code_blocks;
    out.append(&mut ranked);
    out
}

// ---------------------------------------------------------------------------
// Laws of the expansion
// ---------------------------------------------------------------------------

/// Whether no block of `s` ranks before a block listed earlier.
pub open spec fn rank_sorted(s: Seq<CodeBlock>, refs: Seq<Seq<char>>) -> bool {
    forall|i: int, j: int| 0 <= i < j < s.len() ==> !ranks_before(#[trigger] s[j], #[trigger] s[i], refs)
}

/// Whether no two blocks of `s` share a hash.
pub open spec fn unique_hashes(s: Seq<CodeBlock>) -> bool {
    forall|i: int, j: int| 0 <= i < j < s.len() ==> (#[trigger] s[i]).hash@ != (#[trigger] s[j]).hash@
}

proof fn lemma_ranks_before_irreflexive(a: CodeBlock, refs: Seq<Seq<char>>)
    ensures
        !ranks_before(a, a, refs),
{
    lemma_seq_lt_irreflexive(a.path@);
}

proof fn lemma_ranks_before_transitive(a: CodeBlock, b: CodeBlock, c: CodeBlock, refs: Seq<Seq<char>>)
    requires
        ranks_before(a, b, refs),
        ranks_before(b, c, refs),
    ensures
        ranks_before(a, c, refs),
{
    if seq_lt(a.path@, b.path@) && seq_lt(b.path@, c.path@) {
        lemma_seq_lt_transitive(a.path@, b.path@, c.path@);
    }
}

proof fn lemma_rank_position(s: Seq<CodeBlock>, b: CodeBlock, refs: Seq<Seq<char>>, i: int)
    requires
        0 <= i <= s.len(),
    ensures
        i <= rank_position(s, b, refs, i) <= s.len(),
        forall|k: int| i <= k < rank_position(s, b, refs, i) ==> !ranks_before(b, #[trigger] s[k], refs),
        rank_position(s, b, refs, i) < s.len() ==> ranks_before(b, s[rank_position(s, b, refs, i)], refs),
    decreases s.len() - i,
{
    if i < s.len() && !ranks_before(b, s[i], refs) {
        lemma_rank_position(s, b, refs, i + 1);
    }
}

proof fn lemma_rank_insert(t: Seq<CodeBlock>, b: CodeBlock, refs: Seq<Seq<char>>)
    requires
        rank_sorted(t, refs),
    ensures
        rank_sorted(t.insert(rank_position(t, b, refs, 0), b), refs),
        t.insert(rank_position(t, b, refs, 0), b).len() == t.len() + 1,
        forall|x: CodeBlock| t.insert(rank_position(t, b, refs, 0), b).contains(x) <==> (t.contains(x) || x == b),
        unique_hashes(t) && !has_hash(t, b.hash@) ==> unique_hashes(t.insert(rank_position(t, b, refs, 0), b)),
{
    let p = rank_position(t, b, refs, 0);
    lemma_rank_position(t, b, refs, 0);
    let u = t.insert(p, b);
    assert forall|k: int| 0 <= k < u.len() implies #[trigger] u[k] == if k < p {
        t[k]
    } else if k == p {
        b
    } else {
        t[k - 1]
    } by {}
    assert forall|i: int, j: int| 0 <= i < j < u.len() implies !ranks_before(#[trigger] u[j], #[trigger] u[i], refs) by {
        if i < p && j == p {
        } else if i < p && j > p {
            assert(!ranks_before(t[j - 1], t[i], refs));
        } else if i == p {
            if ranks_before(t[j - 1], b, refs) {
                lemma_ranks_before_transitive(t[j - 1], b, t[p], refs);
                if j - 1 == p {
                    lemma_ranks_before_irreflexive(t[p], refs);
                } else {
                    assert(!ranks_before(t[j - 1], t[p], refs));
                }
            }
        } else if i > p {
            assert(!ranks_before(t[j - 1], t[i - 1], refs));
        } else {
            assert(!ranks_before(t[j], t[i], refs));
        }
    }
    assert forall|x: CodeBlock| u.contains(x) <==> (t.contains(x) || x == b) by {
        if u.contains(x) {
            let k = choose|k: int| 0 <= k < u.len() && u[k] == x;
            if k < p {
                assert(t[k] == x);
            } else if k > p {
                assert(t[k - 1] == x);
            }
        }
        if t.contains(x) {
            let k = choose|k: int| 0 <= k < t.len() && t[k] == x;
            if k < p {
                assert(u[k] == x);
            } else {
                assert(u[k + 1] == x);
            }
        }
        if x == b {
            assert(u[p] == x);
        }
    }
    if unique_hashes(t) && !has_hash(t, b.hash@) {
        assert forall|i: int, j: int| 0 <= i < j < u.len() implies (#[trigger] u[i]).hash@ != (#[trigger] u[j]).hash@ by {
            if i == p {
                assert(t[j - 1] == u[j]);
            } else if j == p {
                assert(t[i] == u[i]);
            } else if i < p && j > p {
                assert(t[i].hash@ != t[j - 1].hash@);
            } else if i > p {
                assert(t[i - 1].hash@ != t[j - 1].hash@);
            } else {
                assert(t[i].hash@ != t[j].hash@);
            }
        }
    }
}

/// The ranking sort orders the blocks by rank and keeps exactly the blocks
/// it was given; blocks with distinct hashes keep distinct hashes.
pub proof fn lemma_rank_sort(s: Seq<CodeBlock>, refs: Seq<Seq<char>>)
    ensures
        rank_sorted(rank_sort(s, refs), refs),
        rank_sort(s, refs).len() == s.len(),
        forall|x: CodeBlock| rank_sort(s, refs).contains(x) <==> s.contains(x),
        unique_hashes(s) ==> unique_hashes(rank_sort(s, refs)),
    decreases s.len(),
{
    if s.len() > 0 {
        let d = s.drop_last();
        let t = rank_sort(d, refs);
        lemma_rank_sort(d, refs);
        lemma_rank_insert(t, s.last(), refs);
        assert forall|x: CodeBlock| s.contains(x) <==> (d.contains(x) || x == s.last()) by {
            if s.contains(x) {
                let k = choose|k: int| 0 <= k < s.len() && s[k] == x;
                if k < s.len() - 1 {
                    assert(d[k] == x);
                }
            }
            if d.contains(x) {
                let k = choose|k: int| 0 <= k < d.len() && d[k] == x;
                assert(s[k] == x);
            }
        }
        if unique_hashes(s) {
            assert(unique_hashes(d)) by {
                assert forall|i: int, j: int| 0 <= i < j < d.len() implies (#[trigger] d[i]).hash@ != (#[trigger] d[j]).hash@ by {
                    assert(s[i] == d[i] && s[j] == d[j]);
                }
            }
            assert(!has_hash(t, s.last().hash@)) by {
                if has_hash(t, s.last().hash@) {
                    let k = choose|k: int| 0 <= k < t.len() && (#[trigger] t[k]).hash@ == s.last().hash@;
                    assert(t.contains(t[k]));
                    assert(d.contains(t[k]));
                    let m = choose|m: int| 0 <= m < d.len() && d[m] == t[k];
                    assert(s[m] == d[m]);
                    assert(s[m].hash@ != s[s.len() - 1].hash@);
                }
            }
        }
    }
}

proof fn lemma_new_blocks(given: Seq<CodeBlock>, found: Seq<Option<CodeBlock>>)
    ensures
        unique_hashes(new_blocks(given, found)),
        forall|i: int| 0 <= i < new_blocks(given, found).len() ==> !has_hash(given, (#[trigger] new_blocks(given, found)[i]).hash@),
        forall|k: int| 0 <= k < found.len() && (#[trigger] found[k]) is Some ==> (has_hash(given, found[k]->0.hash@)
            || has_hash(new_blocks(given, found), found[k]->0.hash@)),
    decreases found.len(),
{
    if found.len() > 0 {
        let prev = new_blocks(given, found.drop_last());
        lemma_new_blocks(given, found.drop_last());
        let nb = new_blocks(given, found);
        assert forall|k: int| 0 <= k < found.len() && (#[trigger] found[k]) is Some implies (has_hash(given, found[k]->0.hash@)
            || has_hash(nb, found[k]->0.hash@)) by {
            if k < found.len() - 1 {
                assert(found.drop_last()[k] == found[k]);
                if has_hash(prev, found[k]->0.hash@) {
                    let i = choose|i: int| 0 <= i < prev.len() && (#[trigger] prev[i]).hash@ == found[k]->0.hash@;
                    assert(nb[i] == prev[i]);
                }
            } else {
                let b = found[k]->0;
                if !has_hash(given, b.hash@) && !has_hash(prev, b.hash@) {
                    assert(nb[nb.len() - 1] == b);
                } else if has_hash(prev, b.hash@) {
                    let i = choose|i: int| 0 <= i < prev.len() && (#[trigger] prev[i]).hash@ == b.hash@;
                    assert(nb[i] == prev[i]);
                }
            }
        }
    }
}

/// An expansion keeps the given blocks first and in their order; the
/// blocks it adds have hashes that are neither among the given blocks nor
/// repeated, come in ranking order, and every block that a lookup found is
/// in the result (itself or an earlier block with its hash).
#[verifier::rlimit(50)]
pub proof fn law_expansion(given: Seq<CodeBlock>, found: Seq<Option<CodeBlock>>, refs: Seq<Seq<char>>)
    ensures
        expanded_blocks(given, found, refs).subrange(0, given.len() as int) == given,
        forall|i: int|
            given.len() <= i < expanded_blocks(given, found, refs).len() ==> !has_hash(
                given,
                (#[trigger] expanded_blocks(given, found, refs)[i]).hash@,
            ),
        forall|i: int, j: int|
            given.len() <= i < j < expanded_blocks(given, found, refs).len() ==> (#[trigger] expanded_blocks(
                given,
                found,
                refs,
            )[i]).hash@ != (#[trigger] expanded_blocks(given, found, refs)[j]).hash@,
        forall|i: int, j: int|
            given.len() <= i < j < expanded_blocks(given, found, refs).len() ==> !ranks_before(
                #[trigger] expanded_blocks(given, found, refs)[j],
                #[trigger] expanded_blocks(given, found, refs)[i],
                refs,
            ),
        forall|k: int|
            0 <= k < found.len() && (#[trigger] found[k]) is Some ==> has_hash(
                expanded_blocks(given, found, refs),
                found[k]->0.hash@,
            ),
{
    let nb = new_blocks(given, found);
    let rs = rank_sort(nb, refs);
    let r = expanded_blocks(given, found, refs);
    lemma_new_blocks(given, found);
    lemma_rank_sort(nb, refs);
    assert(r.subrange(0, given.len() as int) =~= given);
    assert forall|i: int| given.len() <= i < r.len() implies #[trigger] r[i] == rs[i - given.len()] by {}
    assert forall|i: int| given.len() <= i < r.len() implies !has_hash(given, (#[trigger] r[i]).hash@) by {
        let x = rs[i - given.len()];
        assert(rs.contains(x));
        assert(nb.contains(x));
        let m = choose|m: int| 0 <= m < nb.len() && nb[m] == x;
        assert(!has_hash(given, nb[m].hash@));
        assert(r[i] == x);
    }
    assert forall|i: int, j: int| given.len() <= i < j < r.len() implies (#[trigger] r[i]).hash@ != (#[trigger] r[j]).hash@ by {
        assert(rs[i - given.len()].hash@ != rs[j - given.len()].hash@);
    }
    assert forall|i: int, j: int| given.len() <= i < j < r.len() implies !ranks_before(#[trigger] r[j], #[trigger] r[i], refs) by {
        assert(!ranks_before(rs[j - given.len()], rs[i - given.len()], refs));
    }
    assert forall|k: int| 0 <= k < found.len() && (#[trigger] found[k]) is Some implies has_hash(r, found[k]->0.hash@) by {
        let h = found[k]->0.hash@;
        if has_hash(given, h) {
            let i = choose|i: int| 0 <= i < given.len() && (#[trigger] given[i]).hash@ == h;
            assert(r[i] == given[i]);
        } else {
            let i = choose|i: int| 0 <= i < nb.len() && (#[trigger] nb[i]).hash@ == h;
            assert(nb.contains(nb[i]));
            assert(rs.contains(nb[i]));
            let m = choose|m: int| 0 <= m < rs.len() && rs[m] == nb[i];
            assert(r[m + given.len()] == rs[m]);
        }
    }
}

} // verus!
