//! Block cards: question lines, a line holding only `->` or `<->`, answer lines.
use crate::doc_parser::extraction::{all_false, build_residual, is_blank, is_blank_line, join_range, mark, mark_range, residual, ExtractionResult};
use crate::doc_parser::types::{card_of, make_card_of, views, warning_views, Card, CardType, CardView, Warning};
use crate::text::{chars_eq, chars_of, join_nl, lines, lines_exec, push_str, string_of, trim, trim_chars};
use vstd::prelude::*;

verus! {

/// A line holding only a block arrow.
pub open spec fn is_arrow_line(l: Seq<char>) -> bool {
    trim(l) == "->"@ || trim(l) == "<->"@
}

/// First line of the question that ends just above line `j`: contiguous
/// non-blank lines not yet consumed.
pub open spec fn question_start(ls: Seq<Seq<char>>, consumed: Seq<bool>, j: int) -> int
    decreases j,
{
    if 0 < j <= ls.len() && !is_blank(ls[j - 1]) && !consumed[j - 1] {
        question_start(ls, consumed, j - 1)
    } else {
        j
    }
}

/// End (exclusive) of the answer that starts at line `j`.
pub open spec fn answer_end(ls: Seq<Seq<char>>, consumed: Seq<bool>, j: int) -> int
    decreases ls.len() - j,
{
    if 0 <= j < ls.len() && !is_blank(ls[j]) && !consumed[j] {
        answer_end(ls, consumed, j + 1)
    } else {
        j
    }
}

pub proof fn lemma_question_start(ls: Seq<Seq<char>>, consumed: Seq<bool>, j: int)
    requires
        0 <= j <= ls.len(),
    ensures
        0 <= question_start(ls, consumed, j) <= j,
    decreases j,
{
    if 0 < j && !is_blank(ls[j - 1]) && !consumed[j - 1] {
        lemma_question_start(ls, consumed, j - 1);
    }
}

pub proof fn lemma_answer_end(ls: Seq<Seq<char>>, consumed: Seq<bool>, j: int)
    requires
        0 <= j <= ls.len(),
    ensures
        j <= answer_end(ls, consumed, j) <= ls.len(),
    decreases ls.len() - j,
{
    if j < ls.len() && !is_blank(ls[j]) && !consumed[j] {
        lemma_answer_end(ls, consumed, j + 1);
    }
}

/// The warning for an arrow line that lacks a question or an answer.
pub open spec fn block_warning(bidi: bool, has_question: bool, has_answer: bool) -> Seq<char> {
    "block card `"@ + (if bidi {
        "<->"@
    } else {
        "->"@
    }) + "` "@ + (if !has_question && !has_answer {
        "missing question and answer"@
    } else if !has_question {
        "missing question above arrow"@
    } else {
        "missing answer below arrow"@
    })
}

/// The block scan from line `i`: cards, warnings and consumed lines.
pub open spec fn block_scan(
    ls: Seq<Seq<char>>,
    i: int,
    cards: Seq<CardView>,
    warnings: Seq<(usize, Seq<char>)>,
    consumed: Seq<bool>,
) -> (Seq<CardView>, Seq<(usize, Seq<char>)>, Seq<bool>)
    decreases ls.len() - i,
{
    if i < 0 || i >= ls.len() {
        (cards, warnings, consumed)
    } else if !is_arrow_line(ls[i]) {
        block_scan(ls, i + 1, cards, warnings, consumed)
    } else {
        let bidi = trim(ls[i]) == "<->"@;
        let qs = question_start(ls, consumed, i);
        let ae = answer_end(ls, consumed, i + 1);
        proof {
            lemma_answer_end(ls, consumed, i + 1);
        }
        if qs < i && i + 1 < ae {
            let card = card_of(
                if bidi {
                    CardType::Bidirectional
                } else {
                    CardType::Basic
                },
                join_nl(ls.subrange(qs, i)),
                join_nl(ls.subrange(i + 1, ae)),
            );
            block_scan(ls, ae, cards.push(card), warnings, mark(consumed, qs, ae))
        } else {
            let w = ((i + 1) as usize, block_warning(bidi, qs < i, i + 1 < ae));
            block_scan(ls, ae, cards, warnings.push(w), consumed.update(i, true))
        }
    }
}

/// The cards, warnings and consumed lines of the whole document.
pub open spec fn block_extract(ls: Seq<Seq<char>>) -> (
    Seq<CardView>,
    Seq<(usize, Seq<char>)>,
    Seq<bool>,
) {
    block_scan(ls, 0, seq![], seq![], Seq::new(ls.len(), |k: int| false))
}

/// Takes the block cards out of `markdown`; an arrow line without both a
/// question and an answer gives a warning and is dropped.
pub fn extract_block_cards(markdown: &Vec<char>) -> (r: ExtractionResult)
    ensures
        views(r.cards@) == block_extract(lines(markdown@)).0,
        warning_views(r.warnings@) == block_extract(lines(markdown@)).1,
        r.residual@ == residual(lines(markdown@), block_extract(lines(markdown@)).2),
{
    let lines = lines_exec(markdown);
    let ghost ls = lines.deep_view();
    let mut cards: Vec<Card> = Vec::new();
    let mut warnings: Vec<Warning> = Vec::new();
    let mut consumed = all_false(lines.len());
    assert(consumed@ =~= Seq::new(ls.len(), |k: int| false));
    assert(views(cards@) =~= seq![]);
    assert(warning_views(warnings@) =~= seq![]);
    let arrow = chars_of("->");
    let bidi_arrow = chars_of("<->");
    let mut i: usize = 0;
    while i < lines.len()
        invariant
            0 <= i <= lines.len(),
            ls == lines.deep_view(),
            consumed.len() == lines.len(),
            arrow@ == "->"@,
            bidi_arrow@ == "<->"@,
            block_extract(ls) == block_scan(
                ls,
                i as int,
                views(cards@),
                warning_views(warnings@),
                consumed@,
            ),
        decreases lines.len() - i,
    {
        assert(ls[i as int] == lines[i as int]@);
        let ghost cards0 = views(cards@);
        let ghost warnings0 = warning_views(warnings@);
        let ghost consumed0 = consumed@;
        let trimmed = trim_chars(&lines[i]);
        let is_bidi = chars_eq(&trimmed, &bidi_arrow);
        if !(chars_eq(&trimmed, &arrow) || is_bidi) {
            i = i + 1;
        } else {
            let arrow_idx = i;
            let mut q_start = arrow_idx;
            while q_start > 0
                invariant
                    q_start <= arrow_idx < lines.len(),
                    ls == lines.deep_view(),
                    consumed.len() == lines.len(),
                    consumed@ == consumed0,
                    question_start(ls, consumed0, arrow_idx as int) == question_start(
                        ls,
                        consumed0,
                        q_start as int,
                    ),
                ensures
                    q_start <= arrow_idx < lines.len(),
                    consumed@ == consumed0,
                    question_start(ls, consumed0, arrow_idx as int) == q_start,
                decreases q_start,
            {
                let prev = q_start - 1;
                assert(ls[prev as int] == lines[prev as int]@);
                if is_blank_line(&lines[prev]) || consumed[prev] {
                    break ;
                }
                q_start = prev;
            }
            let mut a_end = arrow_idx + 1;
            while a_end < lines.len()
                invariant
                    arrow_idx < a_end <= lines.len(),
                    ls == lines.deep_view(),
                    consumed.len() == lines.len(),
                    consumed@ == consumed0,
                    answer_end(ls, consumed0, arrow_idx + 1) == answer_end(
                        ls,
                        consumed0,
                        a_end as int,
                    ),
                ensures
                    arrow_idx < a_end <= lines.len(),
                    consumed@ == consumed0,
                    answer_end(ls, consumed0, arrow_idx + 1) == a_end,
                decreases lines.len() - a_end,
            {
                assert(ls[a_end as int] == lines[a_end as int]@);
                if is_blank_line(&lines[a_end]) || consumed[a_end] {
                    break ;
                }
                a_end = a_end + 1;
            }
            assert(question_start(ls, consumed0, arrow_idx as int) == q_start);
            assert(answer_end(ls, consumed0, arrow_idx + 1) == a_end);
            let has_question = q_start < arrow_idx;
            let has_answer = arrow_idx + 1 < a_end;
            if has_question && has_answer {
                let question = join_range(&lines, q_start, arrow_idx);
                let answer = join_range(&lines, arrow_idx + 1, a_end);
                let card_type = if is_bidi {
                    CardType::Bidirectional
                } else {
                    CardType::Basic
                };
                let card = make_card_of(card_type, &question, &answer);
                let ghost before = cards@;
                cards.push(card);
                assert(views(cards@) =~= views(before).push(card@));
                mark_range(&mut consumed, q_start, a_end);
            } else {
                let mut msg = chars_of("block card `");
                if is_bidi {
                    push_str(&mut msg, "<->");
                } else {
                    push_str(&mut msg, "->");
                }
                push_str(&mut msg, "` ");
                if !has_question && !has_answer {
                    push_str(&mut msg, "missing question and answer");
                } else if !has_question {
                    push_str(&mut msg, "missing question above arrow");
                } else {
                    push_str(&mut msg, "missing answer below arrow");
                }
                let w = Warning::new(arrow_idx + 1, string_of(&msg));
                let ghost before = warnings@;
                warnings.push(w);
                assert(warning_views(warnings@) =~= warning_views(before).push(w@));
                consumed.set(arrow_idx, true);
            }
            i = a_end;
            assert(block_scan(ls, arrow_idx as int, cards0, warnings0, consumed0) == block_scan(
                ls,
                i as int,
                views(cards@),
                warning_views(warnings@),
                consumed@,
            ));
        }
    }
    let residual = build_residual(&lines, &consumed);
    ExtractionResult { cards, residual, warnings }
}

/// A block card takes its type from its separator line: a question line, a
/// line holding only `<->` (or `->`), and an answer line give one card,
/// question and answer, of type `Bidirectional` (or `Basic`).
pub proof fn block_card_type_follows_separator(q: Seq<char>, sep: Seq<char>, a: Seq<char>)
    requires
        !is_blank(q),
        !is_blank(a),
        !is_arrow_line(q),
        !is_arrow_line(a),
        trim(sep) == "<->"@ || trim(sep) == "->"@,
    ensures
        block_extract(seq![q, sep, a]).0.len() == 1,
        block_extract(seq![q, sep, a]).0[0].fields == seq![q, a],
        trim(sep) == "<->"@ ==> block_extract(seq![q, sep, a]).0[0].card_type == CardType::Bidirectional,
        trim(sep) == "->"@ ==> block_extract(seq![q, sep, a]).0[0].card_type == CardType::Basic,
{
    let ls = seq![q, sep, a];
    let c0 = Seq::new(ls.len(), |k: int| false);
    assert(!c0[0] && !c0[1] && !c0[2]);
    assert(question_start(ls, c0, 0) == 0);
    assert(question_start(ls, c0, 1) == 0);
    assert(answer_end(ls, c0, 3) == 3);
    assert(answer_end(ls, c0, 2) == 3);
    assert(ls.subrange(0, 1) =~= seq![q]);
    assert(ls.subrange(2, 3) =~= seq![a]);
    assert(join_nl(seq![q]) == q);
    assert(join_nl(seq![a]) == a);
    let bidi = trim(sep) == "<->"@;
    if bidi {
        reveal_strlit("<->");
        reveal_strlit("->");
        assert(trim(sep) != "->"@);
    }
    let card = card_of(
        if bidi {
            CardType::Bidirectional
        } else {
            CardType::Basic
        },
        join_nl(ls.subrange(0, 1)),
        join_nl(ls.subrange(2, 3)),
    );
    let c1 = mark(c0, 0, 3);
    assert(block_scan(ls, 3, seq![card], seq![], c1) == (seq![card], Seq::<(usize, Seq<char>)>::empty(), c1));
    assert(block_scan(ls, 1, seq![], seq![], c0) == block_scan(ls, 3, seq![].push(card), seq![], c1));
    assert(seq![].push(card) =~= seq![card]);
    assert(block_scan(ls, 0, seq![], seq![], c0) == block_scan(ls, 1, seq![], seq![], c0));
}

} // verus!
