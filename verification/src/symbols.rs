use vstd::prelude::*;
use crate::text::{char_views, has_char, to_chars};

verus! {

broadcast use vstd::seq_lib::group_seq_properties;

/// Whether `a` comes before `b` in the order of `String` (code point by
/// code point, a prefix first).
pub open spec fn seq_lt(a: Seq<char>, b: Seq<char>) -> bool
    decreases a.len(),
{
    if a.len() == 0 {
        b.len() > 0
    } else if b.len() == 0 {
        false
    } else if a[0] != b[0] {
        (a[0] as u32) < (b[0] as u32)
    } else {
        seq_lt(a.drop_first(), b.drop_first())
    }
}

/// The first position at or after `i` in `s` whose symbol does not come
/// before `x`, or the length of `s`.
pub open spec fn lex_position(s: Seq<Seq<char>>, x: Seq<char>, i: int) -> int
    decreases s.len() - i,
{
    if i < 0 || i >= s.len() {
        s.len() as int
    } else if !seq_lt(s[i], x) {
        i
    } else {
        lex_position(s, x, i + 1)
    }
}

/// `s` with `x` inserted at its place in order, unless it is already there.
pub open spec fn insert_unique(s: Seq<Seq<char>>, x: Seq<char>) -> Seq<Seq<char>> {
    let p = lex_position(s, x, 0);
    if p < s.len() && s[p] == x {
        s
    } else {
        s.insert(p, x)
    }
}

/// The symbols sorted, each once (`sort` then `dedup`).
pub open spec fn sorted_unique(s: Seq<Seq<char>>) -> Seq<Seq<char>>
    decreases s.len(),
{
    if s.len() == 0 {
        seq![]
    } else {
        insert_unique(sorted_unique(s.drop_last()), s.last())
    }
}

/// The symbols without those that hold an underscore.
pub open spec fn without_underscored(s: Seq<Seq<char>>) -> Seq<Seq<char>>
    decreases s.len(),
{
    if s.len() == 0 {
        seq![]
    } else if has_char(s.last(), '_') {
        without_underscored(s.drop_last())
    } else {
        without_underscored(s.drop_last()).push(s.last())
    }
}

/// The symbols shown for a block: sorted, each once, without those that
/// hold an underscore (which name syntax node kinds, not code symbols).
pub open spec fn display_symbols(symbols: Seq<Seq<char>>) -> Seq<Seq<char>> {
    without_underscored(sorted_unique(symbols))
}

proof fn lemma_seq_lt_skip(a: Seq<char>, b: Seq<char>, i: int)
    requires
        0 <= i <= a.len(),
        i <= b.len(),
        forall|k: int| 0 <= k < i ==> a[k] == b[k],
    ensures
        seq_lt(a, b) == seq_lt(a.skip(i), b.skip(i)),
    decreases i,
{
    if i > 0 {
        assert(a.drop_first().skip(i - 1) =~= a.skip(i));
        assert(b.drop_first().skip(i - 1) =~= b.skip(i));
        lemma_seq_lt_skip(a.drop_first(), b.drop_first(), i - 1);
    } else {
        assert(a.skip(0) =~= a);
        assert(b.skip(0) =~= b);
    }
}

/// Whether `a` comes before `b` in string order.
pub fn chars_lt(a: &[char], b: &[char]) -> (r: bool)
    ensures
        r == seq_lt(a@, b@),
{
    let mut i: usize = 0;
    while i < a.len() && i < b.len() && a[i] == b[i]
        invariant
            0 <= i <= a@.len(),
            i <= b@.len(),
            forall|k: int| 0 <= k < i ==> a@[k] == b@[k],
        decreases a@.len() - i,
    {
        i = i + 1;
    }
    proof {
        lemma_seq_lt_skip(a@, b@, i as int);
    }
    if i == a.len() {
        i < b.len()
    } else if i == b.len() {
        false
    } else {
        (a[i] as u32) < (b[i] as u32)
    }
}

/// The symbols sorted, each once.
pub fn sorted_unique_list(symbols: &Vec<String>) -> (r: Vec<Vec<char>>)
    ensures
        char_views(r@) == sorted_unique(symbols@.map_values(|s: String| s@)),
{
    let ghost syms = symbols@.map_values(|s: String| s@);
    let mut sorted: Vec<Vec<char>> = Vec::new();
    for i in 0..symbols.len()
        invariant
            syms == symbols@.map_values(|s: String| s@),
            char_views(sorted@) == sorted_unique(syms.take(i as int)),
    {
        assert(syms.take(i + 1).drop_last() =~= syms.take(i as int));
        let x = to_chars(symbols[i].as_str());
        let ghost cur = char_views(sorted@);
        let mut p: usize = 0;
        while p < sorted.len() && chars_lt(sorted[p].as_slice(), x.as_slice())
            invariant
                0 <= p <= sorted@.len(),
                cur == char_views(sorted@),
                lex_position(cur, x@, 0) == lex_position(cur, x@, p as int),
            decreases sorted@.len() - p,
        {
            p = p + 1;
        }
        let present = p < sorted.len() && crate::text::chars_eq(sorted[p].as_slice(), x.as_slice());
        if !present {
            sorted.insert(p, x);
            assert(char_views(sorted@) =~= cur.insert(p as int, syms[i as int]));
        }
    }
    assert(syms.take(symbols@.len() as int) =~= syms);
    sorted
}

/// The symbols to show for a block, as strings.
pub fn display_symbol_list(symbols: &Vec<String>) -> (r: Vec<String>)
    ensures
        r@.map_values(|s: String| s@) == display_symbols(symbols@.map_values(|s: String| s@)),
{
    let sorted = sorted_unique_list(symbols);
    let ghost su = char_views(sorted@);
    let mut out: Vec<String> = Vec::new();
    for i in 0..sorted.len()
        invariant
            su == char_views(sorted@),
            out@.map_values(|s: String| s@) == without_underscored(su.take(i as int)),
    {
        assert(su.take(i + 1).drop_last() =~= su.take(i as int));
        let ghost before = out@.map_values(|s: String| s@);
        if !crate::text::contains_char(sorted[i].as_slice(), '_') {
            let s = crate::text::string_of(sorted[i].as_slice());
            out.push(s);
            assert(out@.map_values(|s: String| s@) =~= before.push(su[i as int]));
        }
    }
    assert(su.take(sorted@.len() as int) =~= su);
    out
}

// ---------------------------------------------------------------------------
// String order and the sorted symbol list
// ---------------------------------------------------------------------------

/// No string comes before itself.
pub proof fn lemma_seq_lt_irreflexive(a: Seq<char>)
    ensures
        !seq_lt(a, a),
    decreases a.len(),
{
    if a.len() > 0 {
        lemma_seq_lt_irreflexive(a.drop_first());
    }
}

/// The string order is transitive.
pub proof fn lemma_seq_lt_transitive(a: Seq<char>, b: Seq<char>, c: Seq<char>)
    requires
        seq_lt(a, b),
        seq_lt(b, c),
    ensures
        seq_lt(a, c),
    decreases a.len(),
{
    if a.len() > 0 && b.len() > 0 && c.len() > 0 && a[0] == b[0] && b[0] == c[0] {
        lemma_seq_lt_transitive(a.drop_first(), b.drop_first(), c.drop_first());
    }
}

/// Of two different strings, one comes before the other.
pub proof fn lemma_seq_lt_total(a: Seq<char>, b: Seq<char>)
    requires
        a != b,
    ensures
        seq_lt(a, b) || seq_lt(b, a),
    decreases a.len(),
{
    if a.len() == 0 {
        assert(b.len() > 0) by {
            if b.len() == 0 {
                assert(a =~= b);
            }
        }
    } else if b.len() > 0 && a[0] == b[0] {
        assert(a.drop_first() != b.drop_first()) by {
            if a.drop_first() == b.drop_first() {
                assert(a =~= seq![a[0]] + a.drop_first());
                assert(b =~= seq![b[0]] + b.drop_first());
            }
        }
        lemma_seq_lt_total(a.drop_first(), b.drop_first());
    } else if b.len() > 0 {
        vstd::utf8::char_u32_cast(a[0], a[0] as u32);
        vstd::utf8::char_u32_cast(b[0], b[0] as u32);
    }
}

/// Whether each string of `s` comes before the next.
pub open spec fn strictly_sorted(s: Seq<Seq<char>>) -> bool {
    forall|i: int, j: int| 0 <= i < j < s.len() ==> seq_lt(#[trigger] s[i], #[trigger] s[j])
}

proof fn lemma_lex_position(s: Seq<Seq<char>>, x: Seq<char>, i: int)
    requires
        0 <= i <= s.len(),
    ensures
        i <= lex_position(s, x, i) <= s.len(),
        forall|k: int| i <= k < lex_position(s, x, i) ==> seq_lt(#[trigger] s[k], x),
        lex_position(s, x, i) < s.len() ==> !seq_lt(s[lex_position(s, x, i)], x),
    decreases s.len() - i,
{
    if i < s.len() && seq_lt(s[i], x) {
        lemma_lex_position(s, x, i + 1);
    }
}

proof fn lemma_insert_unique(s: Seq<Seq<char>>, x: Seq<char>)
    requires
        strictly_sorted(s),
    ensures
        strictly_sorted(insert_unique(s, x)),
        forall|y: Seq<char>| insert_unique(s, x).contains(y) <==> (s.contains(y) || y == x),
{
    let p = lex_position(s, x, 0);
    lemma_lex_position(s, x, 0);
    if p < s.len() && s[p] == x {
        assert forall|y: Seq<char>| s.contains(y) || y == x implies s.contains(y) by {
            if y == x {
                assert(s[p] == y);
            }
        }
    } else {
        let r = s.insert(p, x);
        assert forall|k: int| 0 <= k < r.len() implies #[trigger] r[k] == if k < p {
            s[k]
        } else if k == p {
            x
        } else {
            s[k - 1]
        } by {}
        if p < s.len() {
            lemma_seq_lt_total(x, s[p]);
        }
        assert forall|a: int, b: int| 0 <= a < b < r.len() implies seq_lt(
            #[trigger] r[a],
            #[trigger] r[b],
        ) by {
            if a < p && b == p {
            } else if a < p && b > p {
                assert(seq_lt(s[a], s[b - 1]));
            } else if a == p {
                if b - 1 > p {
                    assert(seq_lt(s[p], s[b - 1]));
                    lemma_seq_lt_transitive(x, s[p], s[b - 1]);
                }
            } else if a > p {
                assert(seq_lt(s[a - 1], s[b - 1]));
            } else {
                assert(seq_lt(s[a], s[b]));
            }
        }
        assert forall|y: Seq<char>| r.contains(y) <==> (s.contains(y) || y == x) by {
            if r.contains(y) {
                let k = choose|k: int| 0 <= k < r.len() && r[k] == y;
                if k < p {
                    assert(s[k] == y);
                } else if k > p {
                    assert(s[k - 1] == y);
                }
            }
            if s.contains(y) {
                let k = choose|k: int| 0 <= k < s.len() && s[k] == y;
                if k < p {
                    assert(r[k] == y);
                } else {
                    assert(r[k + 1] == y);
                }
            }
            if y == x {
                assert(r[p] == y);
            }
        }
    }
}

/// The sorted symbol list (`sort` then `dedup`) is in strictly increasing
/// string order and holds exactly the symbols it was given.
pub proof fn law_sorted_unique(s: Seq<Seq<char>>)
    ensures
        strictly_sorted(sorted_unique(s)),
        forall|y: Seq<char>| sorted_unique(s).contains(y) <==> s.contains(y),
    decreases s.len(),
{
    if s.len() > 0 {
        law_sorted_unique(s.drop_last());
        lemma_insert_unique(sorted_unique(s.drop_last()), s.last());
        assert forall|y: Seq<char>| s.contains(y) <==> (s.drop_last().contains(y) || y == s.last()) by {
            if s.contains(y) {
                let k = choose|k: int| 0 <= k < s.len() && s[k] == y;
                if k < s.len() - 1 {
                    assert(s.drop_last()[k] == y);
                }
            }
            if s.drop_last().contains(y) {
                let k = choose|k: int| 0 <= k < s.drop_last().len() && s.drop_last()[k] == y;
                assert(s[k] == y);
            }
        }
    }
}

} // verus!
