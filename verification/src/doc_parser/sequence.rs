//! Ordered sequences: a label line followed by `=>` step lines.
use crate::doc_parser::extraction::{all_false, build_residual, is_blank, is_blank_line, mark, mark_range, residual, ExtractionResult};
use crate::doc_parser::types::{card_of, make_card_of, views, Card, CardType, CardView};
use crate::text::{append_all, chars_eq, chars_of, lines, lines_exec, push_str, starts_with, starts_with_exec, slice_of, trim, trim_chars, trim_start, trim_start_chars};
use vstd::prelude::*;

verus! {

/// A line that is one step of a sequence: `=> step` or a bare `=>`.
pub open spec fn is_seq_line(l: Seq<char>) -> bool {
    starts_with(trim_start(l), "=> "@) || trim_start(l) == "=>"@
}

/// The text of a step line without its `=>` marker.
pub open spec fn step_text(l: Seq<char>) -> Seq<char> {
    let t = trim_start(l);
    if starts_with(t, "=> "@) {
        trim(t.subrange(3, t.len() as int))
    } else if starts_with(t, "=>"@) {
        trim(t.subrange(2, t.len() as int))
    } else {
        trim(t)
    }
}

/// A trimmed line that opens a Markdown structure and so cannot be a label.
pub open spec fn is_structural(t: Seq<char>) -> bool {
    ||| starts_with(t, "#"@)
    ||| starts_with(t, "-"@)
    ||| starts_with(t, "*"@)
    ||| starts_with(t, ">"@)
    ||| starts_with(t, "```"@)
    ||| starts_with(t, "~~~"@)
}

/// The label of a block whose first line precedes `idx + 1`: the nearest
/// non-blank line at or above `idx`, unless it is a step or a structure.
pub open spec fn label_at(ls: Seq<Seq<char>>, idx: int) -> Option<(int, Seq<char>)>
    decreases idx + 1,
{
    if idx < 0 || idx >= ls.len() {
        None
    } else if is_blank(ls[idx]) {
        label_at(ls, idx - 1)
    } else if is_seq_line(ls[idx]) || is_structural(trim(ls[idx])) {
        None
    } else {
        Some((idx, trim(ls[idx])))
    }
}

/// End (exclusive) of the run of step lines starting at `i`.
pub open spec fn run_end(ls: Seq<Seq<char>>, i: int) -> int
    decreases ls.len() - i,
{
    if 0 <= i < ls.len() && is_seq_line(ls[i]) {
        run_end(ls, i + 1)
    } else {
        i
    }
}

/// The step texts of lines `a..b`.
pub open spec fn steps_of(ls: Seq<Seq<char>>, a: int, b: int) -> Seq<Seq<char>> {
    Seq::new((b - a) as nat, |k: int| step_text(ls[a + k]))
}

/// The chain of sequence cards of a label and its steps: each asks for the
/// step that comes first, or after the previous one.
pub open spec fn sequence_cards(label: Seq<char>, steps: Seq<Seq<char>>) -> Seq<CardView> {
    Seq::new(
        steps.len(),
        |i: int|
            card_of(
                CardType::Sequence,
                if i == 0 {
                    label + "\nFirst:"@
                } else {
                    label + "\nAfter: "@ + steps[i - 1]
                },
                steps[i],
            ),
    )
}

pub proof fn lemma_label_at(ls: Seq<Seq<char>>, idx: int)
    requires
        idx < ls.len(),
    ensures
        label_at(ls, idx) matches Some((j, _)) ==> 0 <= j <= idx,
    decreases idx + 1,
{
    if idx >= 0 && is_blank(ls[idx]) {
        lemma_label_at(ls, idx - 1);
    }
}

pub proof fn lemma_run_end(ls: Seq<Seq<char>>, i: int)
    requires
        0 <= i <= ls.len(),
    ensures
        i <= run_end(ls, i) <= ls.len(),
        forall|k: int| i <= k < run_end(ls, i) ==> is_seq_line(#[trigger] ls[k]),
        run_end(ls, i) < ls.len() ==> !is_seq_line(ls[run_end(ls, i)]),
    decreases ls.len() - i,
{
    if i < ls.len() && is_seq_line(ls[i]) {
        lemma_run_end(ls, i + 1);
    }
}

/// The sequence scan from line `i`, given the cards found and the lines
/// consumed so far.
pub open spec fn seq_scan(ls: Seq<Seq<char>>, i: int, cards: Seq<CardView>, consumed: Seq<bool>) -> (
    Seq<CardView>,
    Seq<bool>,
)
    decreases ls.len() - i,
{
    if i < 0 || i >= ls.len() {
        (cards, consumed)
    } else if is_seq_line(ls[i]) {
        let end = run_end(ls, i + 1);
        proof {
            lemma_run_end(ls, i + 1);
        }
        match label_at(ls, i - 1) {
            Some((li, label)) => seq_scan(
                ls,
                end,
                cards + sequence_cards(label, steps_of(ls, i, end)),
                mark(consumed.update(li, true), i, end),
            ),
            None => seq_scan(ls, end, cards, consumed),
        }
    } else {
        seq_scan(ls, i + 1, cards, consumed)
    }
}

/// The cards and consumed lines of the whole document.
pub open spec fn seq_extract(ls: Seq<Seq<char>>) -> (Seq<CardView>, Seq<bool>) {
    seq_scan(ls, 0, seq![], Seq::new(ls.len(), |k: int| false))
}

/// Whether `line` is a sequence step.
pub fn is_sequence_line(line: &Vec<char>) -> (r: bool)
    ensures
        r == is_seq_line(line@),
{
    let t = trim_start_chars(line);
    starts_with_exec(&t, &chars_of("=> ")) || chars_eq(&t, &chars_of("=>"))
}

/// The step text of a line.
pub fn strip_sequence_prefix(line: &Vec<char>) -> (r: Vec<char>)
    ensures
        r@ == step_text(line@),
{
    let t = trim_start_chars(line);
    if starts_with_exec(&t, &chars_of("=> ")) {
        proof {
            reveal_strlit("=> ");
        }
        let rest = slice_of(&t, 3, t.len());
        trim_chars(&rest)
    } else if starts_with_exec(&t, &chars_of("=>")) {
        proof {
            reveal_strlit("=>");
        }
        let rest = slice_of(&t, 2, t.len());
        trim_chars(&rest)
    } else {
        trim_chars(&t)
    }
}

fn is_structural_exec(t: &Vec<char>) -> (r: bool)
    ensures
        r == is_structural(t@),
{
    starts_with_exec(t, &chars_of("#")) || starts_with_exec(t, &chars_of("-")) || starts_with_exec(
        t,
        &chars_of("*"),
    ) || starts_with_exec(t, &chars_of(">")) || starts_with_exec(t, &chars_of("```"))
        || starts_with_exec(t, &chars_of("~~~"))
}

/// The label line above a block that starts at `block_start`.
pub fn find_label(lines: &Vec<Vec<char>>, block_start: usize) -> (r: Option<(usize, Vec<char>)>)
    requires
        block_start <= lines.len(),
    ensures
        match r {
            Some((i, l)) => label_at(lines.deep_view(), block_start - 1) == Some((i as int, l@)),
            None => label_at(lines.deep_view(), block_start - 1) is None,
        },
{
    let ghost ls = lines.deep_view();
    if block_start == 0 {
        return None;
    }
    let mut idx = block_start - 1;
    loop
        invariant
            idx < block_start <= lines.len(),
            ls == lines.deep_view(),
            label_at(ls, block_start - 1) == label_at(ls, idx as int),
        decreases idx,
    {
        assert(ls[idx as int] == lines[idx as int]@);
        if !is_blank_line(&lines[idx]) {
            if is_sequence_line(&lines[idx]) {
                return None;
            }
            let t = trim_chars(&lines[idx]);
            if is_structural_exec(&t) {
                return None;
            }
            return Some((idx, t));
        }
        if idx == 0 {
            assert(label_at(ls, -1) is None);
            return None;
        }
        idx = idx - 1;
    }
}

/// The chain of sequence cards of a label and its steps.
pub fn make_sequence_cards(label: &Vec<char>, steps: &Vec<Vec<char>>) -> (r: Vec<Card>)
    ensures
        views(r@) == sequence_cards(label@, steps.deep_view()),
{
    let ghost st = steps.deep_view();
    let mut cards: Vec<Card> = Vec::new();
    let mut i: usize = 0;
    while i < steps.len()
        invariant
            0 <= i <= steps.len(),
            st == steps.deep_view(),
            views(cards@) == sequence_cards(label@, st).take(i as int),
        decreases steps.len() - i,
    {
        let mut front = slice_of(label, 0, label.len());
        assert(front@ =~= label@);
        if i == 0 {
            push_str(&mut front, "\nFirst:");
        } else {
            push_str(&mut front, "\nAfter: ");
            append_all(&mut front, &steps[i - 1]);
        }
        assert(st[i as int] == steps[i as int]@);
        proof {
            if i > 0 {
                assert(st[i - 1] == steps[i - 1]@);
            }
        }
        let c = make_card_of(CardType::Sequence, &front, &steps[i]);
        assert(c@ == sequence_cards(label@, st)[i as int]);
        let ghost before = cards@;
        cards.push(c);
        assert(views(cards@) =~= views(before).push(c@));
        i = i + 1;
        assert(sequence_cards(label@, st).take(i as int) =~= sequence_cards(label@, st).take(
            i - 1,
        ).push(sequence_cards(label@, st)[i - 1]));
    }
    assert(sequence_cards(label@, st).take(steps.len() as int) =~= sequence_cards(label@, st));
    cards
}

/// Takes the sequence blocks out of `markdown`: their cards, and the text
/// without their lines and labels.
pub fn extract_sequence_cards(markdown: &Vec<char>) -> (r: ExtractionResult)
    ensures
        views(r.cards@) == seq_extract(lines(markdown@)).0,
        r.residual@ == residual(lines(markdown@), seq_extract(lines(markdown@)).1),
        r.warnings@.len() == 0,
{
    let lines = lines_exec(markdown);
    let ghost ls = lines.deep_view();
    let mut cards: Vec<Card> = Vec::new();
    let mut consumed = all_false(lines.len());
    assert(consumed@ =~= Seq::new(ls.len(), |k: int| false));
    assert(views(cards@) =~= seq![]);
    let mut i: usize = 0;
    while i < lines.len()
        invariant
            0 <= i <= lines.len(),
            ls == lines.deep_view(),
            consumed.len() == lines.len(),
            seq_extract(ls) == seq_scan(ls, i as int, views(cards@), consumed@),
        decreases lines.len() - i,
    {
        assert(ls[i as int] == lines[i as int]@);
        let ghost cards0 = views(cards@);
        let ghost consumed0 = consumed@;
        if is_sequence_line(&lines[i]) {
            let block_start = i;
            i = i + 1;
            proof {
                lemma_run_end(ls, i as int);
            }
            while i < lines.len() && is_sequence_line(&lines[i])
                invariant
                    block_start < i <= lines.len(),
                    ls == lines.deep_view(),
                    run_end(ls, block_start + 1) == run_end(ls, i as int),
                decreases lines.len() - i,
            {
                assert(ls[i as int] == lines[i as int]@);
                i = i + 1;
            }
            let block_end = i;
            proof {
                lemma_run_end(ls, block_end as int);
                if block_end < lines.len() {
                    assert(ls[block_end as int] == lines[block_end as int]@);
                }
                assert(run_end(ls, block_start + 1) == block_end);
            }
            match find_label(&lines, block_start) {
                Some((label_idx, label)) => {
                    let mut steps: Vec<Vec<char>> = Vec::new();
                    let mut k = block_start;
                    while k < block_end
                        invariant
                            block_start <= k <= block_end <= lines.len(),
                            ls == lines.deep_view(),
                            steps.deep_view() == steps_of(ls, block_start as int, k as int),
                        decreases block_end - k,
                    {
                        assert(ls[k as int] == lines[k as int]@);
                        let s = strip_sequence_prefix(&lines[k]);
                        let ghost before = steps.deep_view();
                        proof {
                            crate::text::lemma_chars_deep_view(s);
                        }
                        steps.push(s);
                        assert(steps.deep_view() =~= before.push(s@));
                        k = k + 1;
                        assert(steps_of(ls, block_start as int, k as int) =~= steps_of(
                            ls,
                            block_start as int,
                            k - 1,
                        ).push(step_text(ls[k - 1])));
                    }
                    let new_cards = make_sequence_cards(&label, &steps);
                    crate::doc_parser::types::extend_cards(&mut cards, &new_cards);
                    proof {
                        lemma_label_at(ls, block_start - 1);
                    }
                    consumed.set(label_idx, true);
                    mark_range(&mut consumed, block_start, block_end);
                    assert(seq_scan(ls, block_start as int, cards0, consumed0) == seq_scan(
                        ls,
                        block_end as int,
                        views(cards@),
                        consumed@,
                    ));
                },
                None => {
                    assert(seq_scan(ls, block_start as int, cards0, consumed0) == seq_scan(
                        ls,
                        block_end as int,
                        views(cards@),
                        consumed@,
                    ));
                },
            }
        } else {
            i = i + 1;
        }
    }
    let residual = build_residual(&lines, &consumed);
    ExtractionResult { cards, residual, warnings: Vec::new() }
}

} // verus!
