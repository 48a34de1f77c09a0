//! What the line-based extractors share: their result and the residual text.
use crate::doc_parser::types::{Card, Warning};
use crate::text::{join_lines, join_nl, lemma_chars_deep_view, trim, is_whitespace, is_ws, lemma_trim};
use vstd::prelude::*;

verus! {

/// Cards taken out of a document, the text left for later stages and
/// diagnostics.
pub struct ExtractionResult {
    pub cards: Vec<Card>,
    pub residual: Vec<char>,
    pub warnings: Vec<Warning>,
}

/// The first `n` lines of `ls` that are not marked consumed.
pub open spec fn kept(ls: Seq<Seq<char>>, consumed: Seq<bool>, n: int) -> Seq<Seq<char>>
    decreases n,
{
    if n <= 0 {
        seq![]
    } else if consumed[n - 1] {
        kept(ls, consumed, n - 1)
    } else {
        kept(ls, consumed, n - 1).push(ls[n - 1])
    }
}

/// The lines not marked consumed, joined by `\n`.
pub open spec fn residual(ls: Seq<Seq<char>>, consumed: Seq<bool>) -> Seq<char> {
    join_nl(kept(ls, consumed, ls.len() as int))
}

/// `consumed` with positions `a..b` marked.
pub open spec fn mark(consumed: Seq<bool>, a: int, b: int) -> Seq<bool> {
    Seq::new(consumed.len(), |k: int| if a <= k < b { true } else { consumed[k] })
}

/// A line with nothing but white space.
pub open spec fn is_blank(l: Seq<char>) -> bool {
    trim(l).len() == 0
}

/// Whether `l` holds nothing but white space.
pub fn is_blank_line(l: &Vec<char>) -> (r: bool)
    ensures
        r == is_blank(l@),
{
    proof {
        lemma_trim(l@);
    }
    let mut i: usize = 0;
    while i < l.len()
        invariant
            0 <= i <= l.len(),
            forall|k: int| 0 <= k < i ==> is_ws(#[trigger] l@[k]),
        decreases l.len() - i,
    {
        if !is_whitespace(l[i]) {
            proof {
                lemma_trim(l@);
                assert(!is_ws(l@[i as int]));
            }
            return false;
        }
        i = i + 1;
    }
    true
}

/// Marks positions `a..b` of `consumed`.
pub fn mark_range(consumed: &mut Vec<bool>, a: usize, b: usize)
    requires
        a <= b <= old(consumed).len(),
    ensures
        final(consumed)@ == mark(old(consumed)@, a as int, b as int),
{
    let mut k = a;
    while k < b
        invariant
            a <= k <= b <= consumed.len(),
            consumed@ == mark(old(consumed)@, a as int, k as int),
        decreases b - k,
    {
        consumed.set(k, true);
        k = k + 1;
        assert(consumed@ =~= mark(old(consumed)@, a as int, k as int));
    }
}

/// A vector of `n` times `false`.
pub fn all_false(n: usize) -> (r: Vec<bool>)
    ensures
        r@ == Seq::new(n as nat, |k: int| false),
{
    let mut r: Vec<bool> = Vec::new();
    while r.len() < n
        invariant
            r.len() <= n,
            r@ == Seq::new(r.len() as nat, |k: int| false),
        decreases n - r.len(),
    {
        r.push(false);
        assert(r@ =~= Seq::new(r.len() as nat, |k: int| false));
    }
    r
}

/// The lines not marked consumed, joined by `\n`.
pub fn build_residual(lines: &Vec<Vec<char>>, consumed: &Vec<bool>) -> (r: Vec<char>)
    requires
        consumed.len() == lines.len(),
    ensures
        r@ == residual(lines.deep_view(), consumed@),
{
    let ghost ls = lines.deep_view();
    let mut keep: Vec<Vec<char>> = Vec::new();
    let mut i: usize = 0;
    while i < lines.len()
        invariant
            0 <= i <= lines.len(),
            consumed.len() == lines.len(),
            ls == lines.deep_view(),
            keep.deep_view() == kept(ls, consumed@, i as int),
        decreases lines.len() - i,
    {
        if !consumed[i] {
            let l = lines[i].clone();
            let ghost before = keep.deep_view();
            proof {
                lemma_chars_deep_view(l);
            }
            keep.push(l);
            assert(keep.deep_view() =~= before.push(ls[i as int]));
        }
        i = i + 1;
    }
    join_lines(&keep)
}

/// Copy of lines `a..b` joined by `\n`.
pub fn join_range(lines: &Vec<Vec<char>>, a: usize, b: usize) -> (r: Vec<char>)
    requires
        a <= b <= lines.len(),
    ensures
        r@ == join_nl(lines.deep_view().subrange(a as int, b as int)),
{
    let ghost ls = lines.deep_view();
    let mut part: Vec<Vec<char>> = Vec::new();
    let mut k = a;
    while k < b
        invariant
            a <= k <= b <= lines.len(),
            ls == lines.deep_view(),
            part.deep_view() == ls.subrange(a as int, k as int),
        decreases b - k,
    {
        let l = lines[k].clone();
        let ghost before = part.deep_view();
        proof {
            lemma_chars_deep_view(l);
        }
        part.push(l);
        assert(part.deep_view() =~= before.push(ls[k as int]));
        k = k + 1;
        assert(part.deep_view() =~= ls.subrange(a as int, k as int));
    }
    join_lines(&part)
}

} // verus!
