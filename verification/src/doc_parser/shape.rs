//! What every parsed card looks like: a question and an answer.
use crate::doc_parser::block::{
    answer_end, block_extract, block_scan, block_warning, is_arrow_line, lemma_answer_end, question_start,
};
use crate::doc_parser::extraction::{mark, residual};
use crate::doc_parser::inline::StateView;
use crate::doc_parser::markdown::{cmark_events, inline_input, on_event, parse_outcome, run_events, EventView, ParseOutcome};
use crate::doc_parser::template::template_expand;
use crate::doc_parser::types::{card_of, CardType};
use crate::text::{join_nl, lines, trim};
use crate::doc_parser::pipe_table::{cell_cards, pipe_extract, pipe_scan, row_cards, row_cards_upto, table_cards_upto};
use crate::doc_parser::sequence::{seq_extract, seq_scan, sequence_cards};
use crate::doc_parser::types::CardView;
use vstd::prelude::*;

verus! {

/// Every card has two fields.
pub open spec fn two_fields(cs: Seq<CardView>) -> bool {
    forall|i: int| 0 <= i < cs.len() ==> (#[trigger] cs[i]).fields.len() == 2
}

proof fn lemma_two_fields_add(a: Seq<CardView>, b: Seq<CardView>)
    requires
        two_fields(a),
        two_fields(b),
    ensures
        two_fields(a + b),
{
    assert forall|i: int| 0 <= i < (a + b).len() implies (#[trigger] (a + b)[i]).fields.len() == 2 by {
        if i < a.len() {
            assert((a + b)[i] == a[i]);
        } else {
            assert((a + b)[i] == b[i - a.len()]);
        }
    }
}

proof fn lemma_row_cards_upto(
    subject: Seq<char>,
    cols: Seq<(Seq<char>, Option<crate::doc_parser::pipe_table::ArrowMarker>)>,
    cells: Seq<Seq<char>>,
    n: int,
)
    ensures
        two_fields(row_cards_upto(subject, cols, cells, n)),
    decreases n,
{
    if n > 0 {
        lemma_row_cards_upto(subject, cols, cells, n - 1);
        let c = cell_cards(subject, cols[n - 1], cells[0], crate::doc_parser::pipe_table::cell_at(cells, n - 1));
        assert(two_fields(c));
        lemma_two_fields_add(row_cards_upto(subject, cols, cells, n - 1), c);
    }
}

proof fn lemma_table_cards_upto(
    subject: Seq<char>,
    cols: Seq<(Seq<char>, Option<crate::doc_parser::pipe_table::ArrowMarker>)>,
    rows: Seq<Seq<char>>,
    n: int,
)
    ensures
        two_fields(table_cards_upto(subject, cols, rows, n)),
    decreases n,
{
    if n > 0 {
        lemma_table_cards_upto(subject, cols, rows, n - 1);
        let cells = crate::doc_parser::pipe_table::pipe_cells(rows[n - 1]);
        lemma_row_cards_upto(subject, cols, cells, cols.len() as int);
        assert(two_fields(row_cards(subject, cols, rows[n - 1])));
        lemma_two_fields_add(table_cards_upto(subject, cols, rows, n - 1), row_cards(subject, cols, rows[n - 1]));
    }
}

proof fn lemma_pipe_scan(ls: Seq<Seq<char>>, i: int, cards: Seq<CardView>, consumed: Seq<bool>)
    requires
        two_fields(cards),
    ensures
        two_fields(pipe_scan(ls, i, cards, consumed).0),
    decreases ls.len() - i,
{
    if 0 <= i < ls.len() {
        let end = crate::doc_parser::pipe_table::pipe_run_end(ls, i + 1);
        crate::doc_parser::pipe_table::lemma_pipe_run_end(ls, i + 1);
        if !crate::doc_parser::pipe_table::is_pipe(ls[i]) {
            lemma_pipe_scan(ls, i + 1, cards, consumed);
        } else {
            let cols = crate::doc_parser::pipe_table::value_columns(ls[i]);
            if end - i < 2 || !crate::doc_parser::pipe_table::any_arrow(cols) {
                lemma_pipe_scan(ls, end, cards, consumed);
            } else {
                let subject = crate::doc_parser::pipe_table::pipe_cells(ls[i])[0];
                let rows = ls.subrange(i + 1, end);
                lemma_table_cards_upto(subject, cols, rows, rows.len() as int);
                let more = table_cards_upto(subject, cols, rows, rows.len() as int);
                lemma_two_fields_add(cards, more);
                lemma_pipe_scan(ls, end, cards + more, mark(consumed, i, end));
            }
        }
    }
}

proof fn lemma_seq_scan(ls: Seq<Seq<char>>, i: int, cards: Seq<CardView>, consumed: Seq<bool>)
    requires
        two_fields(cards),
    ensures
        two_fields(seq_scan(ls, i, cards, consumed).0),
    decreases ls.len() - i,
{
    if 0 <= i < ls.len() {
        if crate::doc_parser::sequence::is_seq_line(ls[i]) {
            let end = crate::doc_parser::sequence::run_end(ls, i + 1);
            crate::doc_parser::sequence::lemma_run_end(ls, i + 1);
            match crate::doc_parser::sequence::label_at(ls, i - 1) {
                Some((li, label)) => {
                    let more = sequence_cards(label, crate::doc_parser::sequence::steps_of(ls, i, end));
                    assert(two_fields(more));
                    lemma_two_fields_add(cards, more);
                    lemma_seq_scan(ls, end, cards + more, mark(consumed.update(li, true), i, end));
                },
                None => {
                    lemma_seq_scan(ls, end, cards, consumed);
                },
            }
        } else {
            lemma_seq_scan(ls, i + 1, cards, consumed);
        }
    }
}

proof fn lemma_block_scan(
    ls: Seq<Seq<char>>,
    i: int,
    cards: Seq<CardView>,
    warnings: Seq<(usize, Seq<char>)>,
    consumed: Seq<bool>,
)
    requires
        two_fields(cards),
    ensures
        two_fields(block_scan(ls, i, cards, warnings, consumed).0),
    decreases ls.len() - i,
{
    if 0 <= i < ls.len() {
        if !is_arrow_line(ls[i]) {
            lemma_block_scan(ls, i + 1, cards, warnings, consumed);
        } else {
            let bidi = trim(ls[i]) == "<->"@;
            let qs = question_start(ls, consumed, i);
            let ae = answer_end(ls, consumed, i + 1);
            lemma_answer_end(ls, consumed, i + 1);
            if qs < i && i + 1 < ae {
                let card = card_of(
                    if bidi {
                        CardType::Bidirectional
                    } else {
                        CardType::Basic
                    },
                    join_nl(ls.subrange(qs, i)),
                    join_nl(ls.subrange(i + 1, ae)),
                );
                lemma_two_fields_add(cards, seq![card]);
                assert(cards.push(card) =~= cards + seq![card]);
                lemma_block_scan(ls, ae, cards.push(card), warnings, mark(consumed, qs, ae));
            } else {
                let w = ((i + 1) as usize, block_warning(bidi, qs < i, i + 1 < ae));
                lemma_block_scan(ls, ae, cards, warnings.push(w), consumed.update(i, true));
            }
        }
    }
}

/// The card an item or paragraph gives has two fields.
proof fn lemma_event_card(s: StateView, e: EventView)
    ensures
        on_event(s, e).1 matches Some(c) ==> c.fields.len() == 2,
{
}

proof fn lemma_run_events(events: Seq<EventView>, n: int)
    ensures
        run_events(events, n) matches Ok(run) ==> two_fields(run.cards),
    decreases n,
{
    if n > 0 {
        lemma_run_events(events, n - 1);
        if let Ok(run) = run_events(events, n - 1) {
            lemma_event_card(run.state, events[n - 1]);
            let (s2, card, img) = on_event(run.state, events[n - 1]);
            if let Some(c) = card {
                lemma_two_fields_add(run.cards, seq![c]);
                assert(run.cards.push(c) =~= run.cards + seq![c]);
            }
        }
    }
}

/// Every card a parse gives has two fields, a question and an answer, and
/// a parse that succeeds gives at least one card.
pub proof fn parsed_cards_have_two_fields(md: Seq<char>)
    ensures
        parse_outcome(md) matches ParseOutcome::Doc(cards, _, _) ==> cards.len() > 0 && two_fields(cards),
{
    match template_expand(lines(md)) {
        Err(_) => {},
        Ok((tl, tw)) => {
            let t = join_nl(tl);
            let p = pipe_extract(lines(t));
            let r1 = residual(lines(t), p.1);
            let q = seq_extract(lines(r1));
            let r2 = residual(lines(r1), q.1);
            let b = block_extract(lines(r2));
            let r3 = residual(lines(r2), b.2);
            let events = cmark_events(inline_input(r3));
            lemma_pipe_scan(lines(t), 0, seq![], Seq::new(lines(t).len(), |k: int| false));
            lemma_seq_scan(lines(r1), 0, seq![], Seq::new(lines(r1).len(), |k: int| false));
            lemma_block_scan(lines(r2), 0, seq![], seq![], Seq::new(lines(r2).len(), |k: int| false));
            lemma_run_events(events, events.len() as int);
            if let Ok(run) = run_events(events, events.len() as int) {
                lemma_two_fields_add(p.0, q.0);
                lemma_two_fields_add(p.0 + q.0, b.0);
                lemma_two_fields_add(p.0 + q.0 + b.0, run.cards);
            }
        },
    }
}

} // verus!
