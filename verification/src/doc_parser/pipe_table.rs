//! Pipe tables whose column headers carry `<->`, `->` or `<-` markers.
use crate::doc_parser::extraction::{
    all_false, build_residual, mark, mark_range, residual, ExtractionResult,
};
use crate::doc_parser::types::{card_of, make_card_of, views, Card, CardType, CardView};
use crate::text::{
    append_all, chars_of, contains_char, ends_with, ends_with_exec, lemma_chars_deep_view,
    lines, lines_exec, push_str, slice_of, split_char, split_exec, trim, trim_chars, is_ws, skip_ws, back_ws,
};
use vstd::prelude::*;

verus! {

/// Which cards a marked column asks for.
#[derive(Debug, Clone, Copy, PartialEq, Eq, Structural)]
pub enum ArrowMarker {
    /// `<->`: a forward and a reverse card.
    Bidirectional,
    /// `->`: a forward card (row to cell).
    Forward,
    /// `<-`: a reverse card (cell to row).
    Backward,
}

/// A column header: its display name and its marker, if any.
pub struct ColHeader {
    pub name: Vec<char>,
    pub arrow: Option<ArrowMarker>,
}

/// The display name and marker of a raw header cell.
pub open spec fn col_header(raw: Seq<char>) -> (Seq<char>, Option<ArrowMarker>) {
    let r = trim(raw);
    if ends_with(r, "<->"@) {
        (trim(r.subrange(0, r.len() - 3)), Some(ArrowMarker::Bidirectional))
    } else if ends_with(r, "->"@) {
        (trim(r.subrange(0, r.len() - 2)), Some(ArrowMarker::Forward))
    } else if ends_with(r, "<-"@) {
        (trim(r.subrange(0, r.len() - 2)), Some(ArrowMarker::Backward))
    } else {
        (r, None)
    }
}

/// A trimmed line without one leading and one trailing `|`.
pub open spec fn pipe_inner(t: Seq<char>) -> Seq<char> {
    let a = if t.len() > 0 && t[0] == '|' {
        t.subrange(1, t.len() as int)
    } else {
        t
    };
    if a.len() > 0 && a.last() == '|' {
        a.drop_last()
    } else {
        a
    }
}

/// Each piece trimmed.
pub open spec fn trim_all(s: Seq<Seq<char>>) -> Seq<Seq<char>> {
    s.map_values(|p: Seq<char>| trim(p))
}

/// The trimmed cells of a pipe-separated line (`a | b` and `| a | b |` alike).
pub open spec fn pipe_cells(line: Seq<char>) -> Seq<Seq<char>> {
    trim_all(split_char(pipe_inner(trim(line)), '|'))
}

/// A line that belongs to a pipe table.
pub open spec fn is_pipe(l: Seq<char>) -> bool {
    l.contains('|')
}

/// End (exclusive) of the run of pipe lines starting at `i`.
pub open spec fn pipe_run_end(ls: Seq<Seq<char>>, i: int) -> int
    decreases ls.len() - i,
{
    if 0 <= i < ls.len() && is_pipe(ls[i]) {
        pipe_run_end(ls, i + 1)
    } else {
        i
    }
}

pub proof fn lemma_pipe_run_end(ls: Seq<Seq<char>>, i: int)
    requires
        0 <= i <= ls.len(),
    ensures
        i <= pipe_run_end(ls, i) <= ls.len(),
        pipe_run_end(ls, i) < ls.len() ==> !is_pipe(ls[pipe_run_end(ls, i)]),
    decreases ls.len() - i,
{
    if i < ls.len() && is_pipe(ls[i]) {
        lemma_pipe_run_end(ls, i + 1);
    }
}

/// The cards of one cell: a forward card `row → ?` and/or a reverse card
/// `? ← cell`, under the context `subject → column`.
pub open spec fn cell_cards(
    subject: Seq<char>,
    header: (Seq<char>, Option<ArrowMarker>),
    row: Seq<char>,
    cell: Seq<char>,
) -> Seq<CardView> {
    let context = subject + " \u{2192} "@ + header.0;
    let fwd = card_of(CardType::Basic, context + "\n"@ + row + " \u{2192}?"@, cell);
    let rev = card_of(CardType::Basic, context + "\n? \u{2190} "@ + cell, row);
    if cell.len() == 0 {
        seq![]
    } else {
        match header.1 {
            Some(ArrowMarker::Bidirectional) => seq![fwd, rev],
            Some(ArrowMarker::Forward) => seq![fwd],
            Some(ArrowMarker::Backward) => seq![rev],
            None => seq![],
        }
    }
}

/// The cell under value column `j` (empty when the row is short).
pub open spec fn cell_at(cells: Seq<Seq<char>>, j: int) -> Seq<char> {
    if j + 1 < cells.len() {
        cells[j + 1]
    } else {
        seq![]
    }
}

/// The cards of the first `n` value columns of a row.
pub open spec fn row_cards_upto(
    subject: Seq<char>,
    cols: Seq<(Seq<char>, Option<ArrowMarker>)>,
    cells: Seq<Seq<char>>,
    n: int,
) -> Seq<CardView>
    decreases n,
{
    if n <= 0 {
        seq![]
    } else {
        row_cards_upto(subject, cols, cells, n - 1) + cell_cards(
            subject,
            cols[n - 1],
            cells[0],
            cell_at(cells, n - 1),
        )
    }
}

/// The cards of a data row; none when its first cell is empty.
pub open spec fn row_cards(
    subject: Seq<char>,
    cols: Seq<(Seq<char>, Option<ArrowMarker>)>,
    line: Seq<char>,
) -> Seq<CardView> {
    let cells = pipe_cells(line);
    if cells[0].len() == 0 {
        seq![]
    } else {
        row_cards_upto(subject, cols, cells, cols.len() as int)
    }
}

/// The cards of the first `n` data rows.
pub open spec fn table_cards_upto(
    subject: Seq<char>,
    cols: Seq<(Seq<char>, Option<ArrowMarker>)>,
    rows: Seq<Seq<char>>,
    n: int,
) -> Seq<CardView>
    decreases n,
{
    if n <= 0 {
        seq![]
    } else {
        table_cards_upto(subject, cols, rows, n - 1) + row_cards(subject, cols, rows[n - 1])
    }
}

/// The value column headers of a header line.
pub open spec fn value_columns(header: Seq<char>) -> Seq<(Seq<char>, Option<ArrowMarker>)> {
    let cells = pipe_cells(header);
    cells.subrange(1, cells.len() as int).map_values(|c: Seq<char>| col_header(c))
}

/// Some value column carries a marker.
pub open spec fn any_arrow(cols: Seq<(Seq<char>, Option<ArrowMarker>)>) -> bool {
    exists|j: int| 0 <= j < cols.len() && (#[trigger] cols[j]).1 is Some
}

/// The pipe-table scan from line `i`.
pub open spec fn pipe_scan(ls: Seq<Seq<char>>, i: int, cards: Seq<CardView>, consumed: Seq<bool>) -> (
    Seq<CardView>,
    Seq<bool>,
)
    decreases ls.len() - i,
{
    if i < 0 || i >= ls.len() {
        (cards, consumed)
    } else if !is_pipe(ls[i]) {
        pipe_scan(ls, i + 1, cards, consumed)
    } else {
        let end = pipe_run_end(ls, i + 1);
        proof {
            lemma_pipe_run_end(ls, i + 1);
        }
        let cols = value_columns(ls[i]);
        if end - i < 2 || !any_arrow(cols) {
            pipe_scan(ls, end, cards, consumed)
        } else {
            let subject = pipe_cells(ls[i])[0];
            let rows = ls.subrange(i + 1, end);
            pipe_scan(
                ls,
                end,
                cards + table_cards_upto(subject, cols, rows, rows.len() as int),
                mark(consumed, i, end),
            )
        }
    }
}

/// The lines from `i` up to the end of their run are pipe lines.
proof fn lemma_pipe_run_lines(ls: Seq<Seq<char>>, i: int)
    requires
        0 <= i <= ls.len(),
    ensures
        forall|k: int| i <= k < pipe_run_end(ls, i) ==> is_pipe(#[trigger] ls[k]),
    decreases ls.len() - i,
{
    if i < ls.len() && is_pipe(ls[i]) {
        lemma_pipe_run_lines(ls, i + 1);
    }
}

proof fn lemma_pipe_scan_takes_pipe_lines(ls: Seq<Seq<char>>, i: int, cards: Seq<CardView>, consumed: Seq<bool>)
    requires
        0 <= i,
        consumed.len() == ls.len(),
        forall|k: int| 0 <= k < ls.len() && consumed[k] ==> is_pipe(#[trigger] ls[k]),
    ensures
        pipe_scan(ls, i, cards, consumed).1.len() == ls.len(),
        forall|k: int| 0 <= k < ls.len() && pipe_scan(ls, i, cards, consumed).1[k] ==> is_pipe(#[trigger] ls[k]),
    decreases ls.len() - i,
{
    if i < ls.len() {
        if !is_pipe(ls[i]) {
            lemma_pipe_scan_takes_pipe_lines(ls, i + 1, cards, consumed);
        } else {
            let end = pipe_run_end(ls, i + 1);
            lemma_pipe_run_end(ls, i + 1);
            lemma_pipe_run_lines(ls, i + 1);
            let cols = value_columns(ls[i]);
            if end - i < 2 || !any_arrow(cols) {
                lemma_pipe_scan_takes_pipe_lines(ls, end, cards, consumed);
            } else {
                let subject = pipe_cells(ls[i])[0];
                let rows = ls.subrange(i + 1, end);
                let m = mark(consumed, i, end);
                assert forall|k: int| 0 <= k < ls.len() && m[k] implies is_pipe(#[trigger] ls[k]) by {
                    if i < k < end {
                        assert(is_pipe(ls[k]));
                    }
                }
                lemma_pipe_scan_takes_pipe_lines(
                    ls,
                    end,
                    cards + table_cards_upto(subject, cols, rows, rows.len() as int),
                    m,
                );
            }
        }
    }
}

/// The pipe-table pass takes only table lines out of the text: every line
/// it removes holds a `|`, and every other line stays, in order.
pub proof fn pipe_tables_take_only_table_lines(ls: Seq<Seq<char>>)
    ensures
        pipe_extract(ls).1.len() == ls.len(),
        forall|k: int| 0 <= k < ls.len() && pipe_extract(ls).1[k] ==> is_pipe(#[trigger] ls[k]),
{
    lemma_pipe_scan_takes_pipe_lines(ls, 0, seq![], Seq::new(ls.len(), |k: int| false));
}

/// A table that the pipe-table pass takes starts at line `i`: a maximal
/// run of at least two lines holding `|` (the line before it holds none),
/// whose header line has a value column with a marker.
pub open spec fn marked_table_start(ls: Seq<Seq<char>>, i: int) -> bool {
    &&& 0 <= i < ls.len()
    &&& is_pipe(ls[i])
    &&& (i == 0 || !is_pipe(ls[i - 1]))
    &&& pipe_run_end(ls, i + 1) - i >= 2
    &&& any_arrow(value_columns(ls[i]))
}

/// Line `k` belongs to a table that the pipe-table pass takes.
pub open spec fn in_marked_table(ls: Seq<Seq<char>>, k: int) -> bool {
    exists|i: int| #[trigger] marked_table_start(ls, i) && i <= k < pipe_run_end(ls, i + 1)
}

/// Scanning starts at `i`: the start, the end, a line without `|`, or the
/// first line of a run.
pub open spec fn scan_boundary(ls: Seq<Seq<char>>, i: int) -> bool {
    i == 0 || i >= ls.len() || !is_pipe(ls[i - 1]) || !is_pipe(ls[i])
}

/// No table that the pass takes holds a line at or after a boundary `i`
/// but starts before it.
proof fn lemma_table_not_across(ls: Seq<Seq<char>>, i: int, j: int, k: int)
    requires
        0 <= i < ls.len(),
        scan_boundary(ls, i),
        marked_table_start(ls, j),
        j <= k < pipe_run_end(ls, j + 1),
        i <= k,
    ensures
        i <= j,
{
    lemma_pipe_run_end(ls, j + 1);
    lemma_pipe_run_lines(ls, j + 1);
    if j < i {
        assert(is_pipe(ls[i - 1]) && is_pipe(ls[i]));
    }
}

proof fn lemma_pipe_scan_tables(ls: Seq<Seq<char>>, i: int, cards: Seq<CardView>, consumed: Seq<bool>)
    requires
        0 <= i,
        consumed.len() == ls.len(),
        scan_boundary(ls, i),
    ensures
        pipe_scan(ls, i, cards, consumed).1.len() == ls.len(),
        forall|k: int|
            0 <= k < ls.len() ==> (#[trigger] pipe_scan(ls, i, cards, consumed).1[k] <==> (consumed[k] || (i <= k
                && in_marked_table(ls, k)))),
    decreases ls.len() - i,
{
    lemma_pipe_scan_takes_pipe_lines_len(ls, i, cards, consumed);
    let res = pipe_scan(ls, i, cards, consumed).1;
    if i < ls.len() {
        if !is_pipe(ls[i]) {
            lemma_pipe_scan_tables(ls, i + 1, cards, consumed);
            assert(res == pipe_scan(ls, i + 1, cards, consumed).1);
            assert forall|k: int| 0 <= k < ls.len() implies (#[trigger] res[k] <==> (consumed[k] || (i <= k
                && in_marked_table(ls, k)))) by {
                if k == i && in_marked_table(ls, k) {
                    let j = choose|j: int| #[trigger] marked_table_start(ls, j) && j <= k < pipe_run_end(ls, j + 1);
                    lemma_pipe_run_lines(ls, j + 1);
                }
            }
        } else {
            let end = pipe_run_end(ls, i + 1);
            lemma_pipe_run_end(ls, i + 1);
            lemma_pipe_run_lines(ls, i + 1);
            let cols = value_columns(ls[i]);
            let marked = !(end - i < 2 || !any_arrow(cols));
            assert(marked <==> marked_table_start(ls, i));
            assert forall|k: int| 0 <= k < ls.len() && i <= k < end implies (in_marked_table(ls, k) <==> marked) by {
                if in_marked_table(ls, k) {
                    let j = choose|j: int| #[trigger] marked_table_start(ls, j) && j <= k < pipe_run_end(ls, j + 1);
                    lemma_table_not_across(ls, i, j, k);
                    if j > i {
                        assert(is_pipe(ls[j - 1]));
                    }
                }
                if marked {
                    assert(marked_table_start(ls, i) && i <= k < pipe_run_end(ls, i + 1));
                }
            }
            if !marked {
                lemma_pipe_scan_tables(ls, end, cards, consumed);
                assert(res == pipe_scan(ls, end, cards, consumed).1);
                assert forall|k: int| 0 <= k < ls.len() implies (#[trigger] res[k] <==> (consumed[k] || (i <= k
                    && in_marked_table(ls, k)))) by {
                    if i <= k < end {
                        assert(!in_marked_table(ls, k));
                    }
                }
            } else {
                let subject = pipe_cells(ls[i])[0];
                let rows = ls.subrange(i + 1, end);
                let more = cards + table_cards_upto(subject, cols, rows, rows.len() as int);
                let m = mark(consumed, i, end);
                lemma_pipe_scan_tables(ls, end, more, m);
                assert(res == pipe_scan(ls, end, more, m).1);
                assert forall|k: int| 0 <= k < ls.len() implies (#[trigger] res[k] <==> (consumed[k] || (i <= k
                    && in_marked_table(ls, k)))) by {
                    assert(res[k] <==> (m[k] || (end <= k && in_marked_table(ls, k))));
                    if i <= k < end {
                        assert(m[k]);
                        assert(in_marked_table(ls, k));
                    } else {
                        assert(m[k] == consumed[k]);
                    }
                }
            }
        }
    }
}

proof fn lemma_pipe_scan_takes_pipe_lines_len(ls: Seq<Seq<char>>, i: int, cards: Seq<CardView>, consumed: Seq<bool>)
    requires
        0 <= i,
        consumed.len() == ls.len(),
    ensures
        pipe_scan(ls, i, cards, consumed).1.len() == ls.len(),
    decreases ls.len() - i,
{
    if i < ls.len() {
        if !is_pipe(ls[i]) {
            lemma_pipe_scan_takes_pipe_lines_len(ls, i + 1, cards, consumed);
        } else {
            let end = pipe_run_end(ls, i + 1);
            lemma_pipe_run_end(ls, i + 1);
            let cols = value_columns(ls[i]);
            if end - i < 2 || !any_arrow(cols) {
                lemma_pipe_scan_takes_pipe_lines_len(ls, end, cards, consumed);
            } else {
                let subject = pipe_cells(ls[i])[0];
                let rows = ls.subrange(i + 1, end);
                lemma_pipe_scan_takes_pipe_lines_len(
                    ls,
                    end,
                    cards + table_cards_upto(subject, cols, rows, rows.len() as int),
                    mark(consumed, i, end),
                );
            }
        }
    }
}

/// The card comes from a data row of a table that the pass takes: row `r`
/// below the header at `i`, read under that header's columns.
pub open spec fn card_of_marked_row(ls: Seq<Seq<char>>, c: CardView) -> bool {
    exists|i: int, r: int|
        #![trigger marked_table_start(ls, i), ls[r]]
        marked_table_start(ls, i) && i < r < pipe_run_end(ls, i + 1) && row_cards(
            pipe_cells(ls[i])[0],
            value_columns(ls[i]),
            ls[r],
        ).contains(c)
}

proof fn lemma_table_cards_from_rows(
    subject: Seq<char>,
    cols: Seq<(Seq<char>, Option<ArrowMarker>)>,
    rows: Seq<Seq<char>>,
    n: int,
    c: CardView,
)
    requires
        0 <= n <= rows.len(),
        table_cards_upto(subject, cols, rows, n).contains(c),
    ensures
        exists|r: int| 0 <= r < n && #[trigger] row_cards(subject, cols, rows[r]).contains(c),
    decreases n,
{
    if n > 0 {
        let a = table_cards_upto(subject, cols, rows, n - 1);
        let b = row_cards(subject, cols, rows[n - 1]);
        let k = choose|k: int| 0 <= k < (a + b).len() && (a + b)[k] == c;
        if k < a.len() {
            assert(a[k] == c);
            lemma_table_cards_from_rows(subject, cols, rows, n - 1, c);
        } else {
            assert(b[k - a.len()] == c);
            assert(b.contains(c));
        }
    }
}

proof fn lemma_pipe_scan_cards(ls: Seq<Seq<char>>, i: int, cards: Seq<CardView>, consumed: Seq<bool>, c: CardView)
    requires
        0 <= i,
        scan_boundary(ls, i),
        pipe_scan(ls, i, cards, consumed).0.contains(c),
    ensures
        cards.contains(c) || card_of_marked_row(ls, c),
    decreases ls.len() - i,
{
    if i < ls.len() {
        if !is_pipe(ls[i]) {
            lemma_pipe_scan_cards(ls, i + 1, cards, consumed, c);
        } else {
            let end = pipe_run_end(ls, i + 1);
            lemma_pipe_run_end(ls, i + 1);
            let cols = value_columns(ls[i]);
            if end - i < 2 || !any_arrow(cols) {
                lemma_pipe_scan_cards(ls, end, cards, consumed, c);
            } else {
                let subject = pipe_cells(ls[i])[0];
                let rows = ls.subrange(i + 1, end);
                let more = table_cards_upto(subject, cols, rows, rows.len() as int);
                lemma_pipe_scan_cards(ls, end, cards + more, mark(consumed, i, end), c);
                if (cards + more).contains(c) {
                    let k = choose|k: int| 0 <= k < (cards + more).len() && (cards + more)[k] == c;
                    if k < cards.len() {
                        assert(cards[k] == c);
                    } else {
                        assert(more[k - cards.len()] == c);
                        lemma_table_cards_from_rows(subject, cols, rows, rows.len() as int, c);
                        let r = choose|r: int| 0 <= r < rows.len() && #[trigger] row_cards(subject, cols, rows[r]).contains(c);
                        assert(rows[r] == ls[i + 1 + r]);
                        assert(marked_table_start(ls, i));
                        assert(row_cards(pipe_cells(ls[i])[0], value_columns(ls[i]), ls[i + 1 + r]).contains(c));
                    }
                }
            }
        }
    }
}

/// Every card of the pipe-table pass comes from a data row of a table it
/// takes (a row whose first cell is empty gives none, and so does an empty
/// cell; see `row_cards` and `cell_cards`).
pub proof fn pipe_table_cards_come_from_marked_rows(ls: Seq<Seq<char>>)
    ensures
        forall|k: int| 0 <= k < pipe_extract(ls).0.len() ==> card_of_marked_row(ls, #[trigger] pipe_extract(ls).0[k]),
{
    assert forall|k: int| 0 <= k < pipe_extract(ls).0.len() implies card_of_marked_row(ls, #[trigger] pipe_extract(ls).0[k]) by {
        let c = pipe_extract(ls).0[k];
        assert(pipe_extract(ls).0.contains(c));
        lemma_pipe_scan_cards(ls, 0, seq![], Seq::new(ls.len(), |j: int| false), c);
    }
}

/// The pipe-table pass takes out exactly the lines of its tables: maximal
/// runs of at least two lines holding `|` whose header has a value column
/// with a marker. Every other line, other runs included, stays in the
/// residual, in order.
pub proof fn pipe_tables_are_the_marked_runs(ls: Seq<Seq<char>>)
    ensures
        pipe_extract(ls).1.len() == ls.len(),
        forall|k: int| 0 <= k < ls.len() ==> (#[trigger] pipe_extract(ls).1[k] <==> in_marked_table(ls, k)),
{
    lemma_pipe_scan_tables(ls, 0, seq![], Seq::new(ls.len(), |k: int| false));
}

/// The cards and consumed lines of the whole document.
pub open spec fn pipe_extract(ls: Seq<Seq<char>>) -> (Seq<CardView>, Seq<bool>) {
    pipe_scan(ls, 0, seq![], Seq::new(ls.len(), |k: int| false))
}

pub proof fn lemma_split_nonempty(s: Seq<char>)
    ensures
        split_char(s, '|').len() >= 1,
{
    crate::text::lemma_split_acc_nonempty(s, '|', 0, seq![]);
}

/// The display name and marker of a raw header cell.
pub fn parse_col_header(raw: &Vec<char>) -> (r: ColHeader)
    ensures
        (r.name@, r.arrow) == col_header(raw@),
{
    let r = trim_chars(raw);
    if ends_with_exec(&r, &chars_of("<->")) {
        proof {
            reveal_strlit("<->");
        }
        let n = slice_of(&r, 0, r.len() - 3);
        ColHeader { name: trim_chars(&n), arrow: Some(ArrowMarker::Bidirectional) }
    } else if ends_with_exec(&r, &chars_of("->")) {
        proof {
            reveal_strlit("->");
        }
        let n = slice_of(&r, 0, r.len() - 2);
        ColHeader { name: trim_chars(&n), arrow: Some(ArrowMarker::Forward) }
    } else if ends_with_exec(&r, &chars_of("<-")) {
        proof {
            reveal_strlit("<-");
        }
        let n = slice_of(&r, 0, r.len() - 2);
        ColHeader { name: trim_chars(&n), arrow: Some(ArrowMarker::Backward) }
    } else {
        ColHeader { name: r, arrow: None }
    }
}

/// The trimmed cells of a pipe-separated line.
pub fn split_pipe_cells(line: &Vec<char>) -> (r: Vec<Vec<char>>)
    ensures
        r.deep_view() == pipe_cells(line@),
        r.len() >= 1,
{
    let t = trim_chars(line);
    let a = if t.len() > 0 && t[0] == '|' {
        slice_of(&t, 1, t.len())
    } else {
        slice_of(&t, 0, t.len())
    };
    assert(t@.subrange(0, t.len() as int) =~= t@);
    let inner = if a.len() > 0 && a[a.len() - 1] == '|' {
        slice_of(&a, 0, a.len() - 1)
    } else {
        slice_of(&a, 0, a.len())
    };
    assert(a@.subrange(0, a.len() as int) =~= a@);
    assert(inner@ == pipe_inner(t@));
    let parts = split_exec(&inner, '|');
    proof {
        lemma_split_nonempty(inner@);
    }
    let ghost ps = parts.deep_view();
    let mut cells: Vec<Vec<char>> = Vec::new();
    let mut k: usize = 0;
    while k < parts.len()
        invariant
            0 <= k <= parts.len(),
            ps == parts.deep_view(),
            cells.deep_view() == trim_all(ps.take(k as int)),
        decreases parts.len() - k,
    {
        assert(ps[k as int] == parts[k as int]@);
        let c = trim_chars(&parts[k]);
        let ghost before = cells.deep_view();
        proof {
            lemma_chars_deep_view(c);
        }
        cells.push(c);
        assert(cells.deep_view() =~= before.push(c@));
        k = k + 1;
        assert(trim_all(ps.take(k as int)) =~= trim_all(ps.take(k - 1)).push(trim(ps[k - 1])));
    }
    assert(ps.take(parts.len() as int) =~= ps);
    cells
}

/// Whether a line belongs to a pipe table.
pub fn is_pipe_line(line: &Vec<char>) -> (r: bool)
    ensures
        r == is_pipe(line@),
{
    contains_char(line, '|')
}

/// Appends the cards of one cell.
pub fn emit_pipe_cards(
    cards: &mut Vec<Card>,
    header: &ColHeader,
    subject: &Vec<char>,
    row_value: &Vec<char>,
    cell_value: &Vec<char>,
)
    ensures
        views(final(cards)@) == views(old(cards)@) + cell_cards(
            subject@,
            (header.name@, header.arrow),
            row_value@,
            cell_value@,
        ),
{
    let ghost hv = (header.name@, header.arrow);
    if cell_value.len() == 0 {
        assert(views(cards@) =~= views(cards@) + seq![]);
        return;
    }
    let mut context = slice_of(subject, 0, subject.len());
    assert(context@ =~= subject@);
    push_str(&mut context, " \u{2192} ");
    append_all(&mut context, &header.name);
    match header.arrow {
        None => {
            assert(views(cards@) =~= views(cards@) + seq![]);
        },
        Some(arrow) => {
            let ghost before = views(cards@);
            if arrow == ArrowMarker::Bidirectional || arrow == ArrowMarker::Forward {
                let mut front = slice_of(&context, 0, context.len());
                assert(front@ =~= context@);
                push_str(&mut front, "\n");
                append_all(&mut front, row_value);
                push_str(&mut front, " \u{2192}?");
                let c = make_card_of(CardType::Basic, &front, cell_value);
                let ghost b = cards@;
                cards.push(c);
                assert(views(cards@) =~= views(b).push(c@));
            }
            if arrow == ArrowMarker::Bidirectional || arrow == ArrowMarker::Backward {
                let mut front = slice_of(&context, 0, context.len());
                assert(front@ =~= context@);
                push_str(&mut front, "\n? \u{2190} ");
                append_all(&mut front, cell_value);
                let c = make_card_of(CardType::Basic, &front, row_value);
                let ghost b = cards@;
                cards.push(c);
                assert(views(cards@) =~= views(b).push(c@));
            }
            assert(views(cards@) =~= before + cell_cards(subject@, hv, row_value@, cell_value@));
        },
    }
}

/// Takes the marked pipe tables out of `markdown`: their cards, and the text
/// without their lines.
pub fn extract_pipe_table_cards(markdown: &Vec<char>) -> (r: ExtractionResult)
    ensures
        views(r.cards@) == pipe_extract(lines(markdown@)).0,
        r.residual@ == residual(lines(markdown@), pipe_extract(lines(markdown@)).1),
        r.warnings@.len() == 0,
{
    let lines = lines_exec(markdown);
    let ghost ls = lines.deep_view();
    let mut cards: Vec<Card> = Vec::new();
    let mut consumed = all_false(lines.len());
    assert(consumed@ =~= Seq::new(ls.len(), |k: int| false));
    assert(views(cards@) =~= seq![]);
    let mut i: usize = 0;
    while i < lines.len()
        invariant
            0 <= i <= lines.len(),
            ls == lines.deep_view(),
            consumed.len() == lines.len(),
            pipe_extract(ls) == pipe_scan(ls, i as int, views(cards@), consumed@),
        decreases lines.len() - i,
    {
        assert(ls[i as int] == lines[i as int]@);
        let ghost cards0 = views(cards@);
        let ghost consumed0 = consumed@;
        if !is_pipe_line(&lines[i]) {
            i = i + 1;
        } else {
            let block_start = i;
            i = i + 1;
            while i < lines.len() && is_pipe_line(&lines[i])
                invariant
                    block_start < i <= lines.len(),
                    ls == lines.deep_view(),
                    pipe_run_end(ls, block_start + 1) == pipe_run_end(ls, i as int),
                decreases lines.len() - i,
            {
                assert(ls[i as int] == lines[i as int]@);
                i = i + 1;
            }
            let block_end = i;
            proof {
                lemma_pipe_run_end(ls, block_end as int);
                if block_end < lines.len() {
                    assert(ls[block_end as int] == lines[block_end as int]@);
                }
                assert(pipe_run_end(ls, block_start + 1) == block_end);
            }
            let header_cells = split_pipe_cells(&lines[block_start]);
            let ghost hc = header_cells.deep_view();
            let mut value_headers: Vec<ColHeader> = Vec::new();
            let mut any_arrow_found = false;
            let mut k: usize = 1;
            while k < header_cells.len()
                invariant
                    1 <= k <= header_cells.len(),
                    hc == header_cells.deep_view(),
                    value_headers.len() == k - 1,
                    forall|j: int|
                        0 <= j < k - 1 ==> ((#[trigger] value_headers[j]).name@,
                        value_headers[j].arrow) == col_header(hc[j + 1]),
                    any_arrow_found <==> exists|j: int|
                        0 <= j < k - 1 && (#[trigger] value_headers[j]).arrow is Some,
                decreases header_cells.len() - k,
            {
                assert(hc[k as int] == header_cells[k as int]@);
                let h = parse_col_header(&header_cells[k]);
                let has = h.arrow.is_some();
                let ghost old_vh = value_headers@;
                value_headers.push(h);
                assert(forall|j: int| 0 <= j < k - 1 ==> value_headers[j] == old_vh[j]);
                if has {
                    any_arrow_found = true;
                    assert(value_headers[k - 1].arrow is Some);
                }
                k = k + 1;
            }
            let ghost cols = value_columns(ls[block_start as int]);
            assert(ls[block_start as int] == lines[block_start as int]@);
            assert(cols.len() == value_headers.len());
            assert forall|j: int| 0 <= j < cols.len() implies #[trigger] cols[j] == (
                value_headers[j].name@,
                value_headers[j].arrow,
            ) by {}
            proof {
                if any_arrow_found {
                    let j = choose|j: int|
                        0 <= j < value_headers.len() && (#[trigger] value_headers[j]).arrow is Some;
                    assert(cols[j].1 is Some);
                }
                if any_arrow(cols) {
                    let j = choose|j: int| 0 <= j < cols.len() && (#[trigger] cols[j]).1 is Some;
                    assert(value_headers[j].arrow is Some);
                }
            }
            if block_end - block_start >= 2 && any_arrow_found {
                let subject = &header_cells[0];
                let ghost rows = ls.subrange(block_start + 1, block_end as int);
                let mut r = block_start + 1;
                while r < block_end
                    invariant
                        block_start + 1 <= r <= block_end <= lines.len(),
                        ls == lines.deep_view(),
                        rows == ls.subrange(block_start + 1, block_end as int),
                        value_headers.len() == cols.len(),
                        forall|j: int|
                            0 <= j < cols.len() ==> #[trigger] cols[j] == (
                                value_headers[j].name@,
                                value_headers[j].arrow,
                            ),
                        views(cards@) == cards0 + table_cards_upto(
                            subject@,
                            cols,
                            rows,
                            r - block_start - 1,
                        ),
                    decreases block_end - r,
                {
                    let ghost row_base = views(cards@);
                    assert(rows[r - block_start - 1] == lines[r as int]@);
                    let cells = split_pipe_cells(&lines[r]);
                    let ghost cv = cells.deep_view();
                    assert(cv[0] == cells[0]@);
                    if cells[0].len() > 0 {
                        let mut j: usize = 0;
                        while j < value_headers.len()
                            invariant
                                0 <= j <= value_headers.len(),
                                value_headers.len() == cols.len(),
                                cv == cells.deep_view(),
                                cv.len() >= 1,
                                forall|jj: int|
                                    0 <= jj < cols.len() ==> #[trigger] cols[jj] == (
                                        value_headers[jj].name@,
                                        value_headers[jj].arrow,
                                    ),
                                views(cards@) == row_base + row_cards_upto(
                                    subject@,
                                    cols,
                                    cv,
                                    j as int,
                                ),
                            decreases value_headers.len() - j,
                        {
                            let empty: Vec<char> = Vec::new();
                            let cell = if j + 1 < cells.len() {
                                &cells[j + 1]
                            } else {
                                &empty
                            };
                            assert(cell@ == cell_at(cv, j as int));
                            assert(cv[0] == cells[0]@);
                            let ghost before = views(cards@);
                            emit_pipe_cards(&mut cards, &value_headers[j], subject, &cells[0], cell);
                            j = j + 1;
                            assert(views(cards@) =~= row_base + row_cards_upto(
                                subject@,
                                cols,
                                cv,
                                j as int,
                            ));
                        }
                    } else {
                        assert(views(cards@) =~= row_base + seq![]);
                    }
                    r = r + 1;
                    assert(views(cards@) =~= cards0 + table_cards_upto(
                        subject@,
                        cols,
                        rows,
                        r - block_start - 1,
                    ));
                }
                mark_range(&mut consumed, block_start, block_end);
                assert(hc[0] == header_cells[0]@);
            }
            assert(pipe_scan(ls, block_start as int, cards0, consumed0) == pipe_scan(
                ls,
                block_end as int,
                views(cards@),
                consumed@,
            ));
        }
    }
    let residual = build_residual(&lines, &consumed);
    ExtractionResult { cards, residual, warnings: Vec::new() }
}

/// Text whose ends are not white space is its own trim.
proof fn lemma_trim_unchanged(s: Seq<char>)
    requires
        s.len() > 0,
        !is_ws(s[0]),
        !is_ws(s.last()),
    ensures
        trim(s) == s,
{
    assert(skip_ws(s, 0) == 0);
    assert(s.subrange(0, s.len() as int) =~= s);
    assert(back_ws(s, s.len() as int) == s.len());
}

/// Outer `|` characters do not matter: a row written `| a | b |` has the
/// cells of `a | b`, for every row text without `|` or white space at its
/// ends.
pub proof fn outer_pipes_do_not_change_cells(l: Seq<char>)
    requires
        l.len() > 0 ==> !is_ws(l[0]) && !is_ws(l.last()) && l[0] != '|' && l.last() != '|',
    ensures
        pipe_cells(seq!['|'] + l + seq!['|']) == pipe_cells(l),
{
    let w = seq!['|'] + l + seq!['|'];
    assert(!is_ws('|'));
    lemma_trim_unchanged(w);
    assert(w.subrange(1, w.len() as int) =~= l + seq!['|']);
    assert((l + seq!['|']).drop_last() =~= l);
    assert(pipe_inner(w) == l);
    if l.len() > 0 {
        lemma_trim_unchanged(l);
        assert(pipe_inner(l) == l);
    } else {
        assert(trim(l) =~= l);
    }
}

} // verus!
