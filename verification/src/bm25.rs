use vstd::prelude::*;
use crate::hybrid::BM25Result;
use crate::text::{join, push_joined};

verus! {

broadcast use vstd::seq_lib::group_seq_properties;

/// The text that the keyword index holds for the symbols of a code block:
/// the symbols separated by spaces.
pub fn bm25_symbols_text(symbols: &Vec<String>) -> (r: String)
    ensures
        r@ == join(symbols@.map_values(|s: String| s@), " "@),
{
    let mut out = String::new();
    push_joined(&mut out, symbols.as_slice(), " ");
    out
}

/// A document that the keyword index returned for a query, with the stored
/// fields that the search reads (`None` where the document lacks one) and
/// its score in millionths.
#[derive(Clone, Debug)]
pub struct BM25Hit {
    pub score: u64,
    pub block_type: Option<String>,
    pub hash: Option<String>,
    pub path: Option<String>,
}

/// The view of a stored field: its text, or the empty text when missing.
pub open spec fn field_or_empty(f: Option<String>) -> Seq<char> {
    match f {
        Some(s) => s@,
        None => seq![],
    }
}

/// Whether a hit passes the block type filter: there is none, the hit has
/// no block type, or its block type is the one asked for.
pub open spec fn passes_type_filter(h: BM25Hit, filter: Option<Seq<char>>) -> bool {
    match filter {
        None => true,
        Some(t) => match h.block_type {
            None => true,
            Some(bt) => bt@ == t,
        },
    }
}

/// A keyword result as values: hash, path and score.
pub open spec fn bm25_view(r: BM25Result) -> (Seq<char>, Seq<char>, u64) {
    (r.hash@, r.path@, r.score)
}

/// The keyword results of the hits, in order: those that pass the filter,
/// with a missing hash or path read as empty.
pub open spec fn bm25_results_of(hits: Seq<BM25Hit>, filter: Option<Seq<char>>) -> Seq<
    (Seq<char>, Seq<char>, u64),
>
    decreases hits.len(),
{
    if hits.len() == 0 {
        seq![]
    } else {
        let prev = bm25_results_of(hits.drop_last(), filter);
        let h = hits.last();
        if passes_type_filter(h, filter) {
            prev.push((field_or_empty(h.hash), field_or_empty(h.path), h.score))
        } else {
            prev
        }
    }
}

fn field_text(f: Option<String>) -> (r: String)
    ensures
        r@ == field_or_empty(f),
{
    match f {
        Some(s) => s,
        None => String::new(),
    }
}

/// Turns the hits of a keyword search into results, keeping only the hits
/// of the given block type (`code`, `doc` or `text`) when one is given.
pub fn collect_bm25_results(hits: Vec<BM25Hit>, block_type: Option<&str>) -> (r: Vec<BM25Result>)
    ensures
        r@.map_values(|x: BM25Result| bm25_view(x)) == bm25_results_of(
            hits@,
            match block_type {
                Some(t) => Some(t@),
                None => None,
            },
        ),
{
    let ghost hs = hits@;
    let ghost filter = match block_type {
        Some(t) => Some(t@),
        None => None,
    };
    let mut out: Vec<BM25Result> = Vec::new();
    for h in it: hits
        invariant
            it.seq() == hs,
            filter == (match block_type {
                Some(t) => Some(t@),
                None => None,
            }),
            out@.map_values(|x: BM25Result| bm25_view(x)) == bm25_results_of(
                hs.take(it.index() as int),
                filter,
            ),
    {
        let ghost k = it.index();
        assert(hs.take(k + 1).drop_last() =~= hs.take(k as int));
        assert(hs.take(k + 1).last() == h);
        let keep = match block_type {
            None => true,
            Some(t) => match &h.block_type {
                None => true,
                Some(bt) => crate::format_text::detail_is(bt.as_str(), t),
            },
        };
        if keep {
            let ghost before = out@.map_values(|x: BM25Result| bm25_view(x));
            let BM25Hit { score, block_type: _, hash, path } = h;
            let r = BM25Result { hash: field_text(hash), path: field_text(path), score };
            out.push(r);
            assert(out@.map_values(|x: BM25Result| bm25_view(x)) =~= before.push(bm25_view(r)));
        }
    }
    assert(hs.take(hs.len() as int) =~= hs);
    out
}

} // verus!
