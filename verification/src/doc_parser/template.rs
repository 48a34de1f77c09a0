//! Template blocks: a ```` ```template ```` fence followed by a pipe table;
//! each data row is substituted into the template's `{{ column }}` holes.
use crate::doc_parser::error::ParseError;
use crate::doc_parser::extraction::{is_blank, is_blank_line, join_range};
use crate::doc_parser::pipe_table::{is_pipe, is_pipe_line, pipe_cells, pipe_run_end, split_pipe_cells, lemma_pipe_run_end};
use crate::doc_parser::types::{warning_views, Warning};
use crate::text::{
    append_all, chars_eq, chars_of, dec, dec_chars, find, find_exec, join_lines, join_nl,
    lemma_chars_deep_view, lemma_find_from, lines, lines_exec, push_str, slice_of, starts_with,
    starts_with_exec, string_of, trim, trim_chars, is_ws, skip_ws, back_ws, find_from, matches_at,
    lemma_skip_ws_bounds, lemma_back_ws_bounds,
};
use vstd::prelude::*;

verus! {

/// A trimmed line that opens a template block.
pub open spec fn is_template_open(t: Seq<char>) -> bool {
    t == "```template"@ || t == "~~~template"@
}

/// A line that closes a block opened with backticks (or tildes).
pub open spec fn is_fence_close(l: Seq<char>, backtick: bool) -> bool {
    if backtick {
        starts_with(trim(l), "```"@)
    } else {
        starts_with(trim(l), "~~~"@)
    }
}

/// The first closing fence at or after line `j`.
pub open spec fn fence_close(ls: Seq<Seq<char>>, j: int, backtick: bool) -> Option<int>
    decreases ls.len() - j,
{
    if j < 0 || j >= ls.len() {
        None
    } else if is_fence_close(ls[j], backtick) {
        Some(j)
    } else {
        fence_close(ls, j + 1, backtick)
    }
}

/// The first non-blank line at or after `j`.
pub open spec fn skip_blank(ls: Seq<Seq<char>>, j: int) -> int
    decreases ls.len() - j,
{
    if 0 <= j < ls.len() && is_blank(ls[j]) {
        skip_blank(ls, j + 1)
    } else {
        j
    }
}

/// First index of `name` among the column names.
pub open spec fn position_of(names: Seq<Seq<char>>, name: Seq<char>, j: int) -> Option<int>
    decreases names.len() - j,
{
    if j < 0 || j >= names.len() {
        None
    } else if names[j] == name {
        Some(j)
    } else {
        position_of(names, name, j + 1)
    }
}

/// The cell of a row under column `j` (empty past the row's end).
pub open spec fn row_cell(row: Seq<Seq<char>>, j: int) -> Seq<char> {
    if 0 <= j < row.len() {
        row[j]
    } else {
        seq![]
    }
}

/// `rest` with each `{{ name }}` replaced by the row's cell under that
/// column; the message of the first unknown name.
pub open spec fn expand_rest(rest: Seq<char>, names: Seq<Seq<char>>, row: Seq<Seq<char>>, line: nat) -> Result<
    Seq<char>,
    Seq<char>,
>
    decreases rest.len(),
{
    match find(rest, "{{"@) {
        None => Ok(rest),
        Some(start) => {
            let after = rest.subrange(start + 2, rest.len() as int);
            match find(after, "}}"@) {
                None => Ok(rest),
                Some(end) => {
                    let name = trim(after.subrange(0, end));
                    match position_of(names, name, 0) {
                        None => Err(
                            "unknown placeholder '"@ + name + "' in template at line "@ + dec(line),
                        ),
                        Some(idx) => {
                            proof {
                                crate::text::lemma_find_from(rest, "{{"@, 0);
                                crate::text::lemma_find_from(after, "}}"@, 0);
                                reveal_strlit("{{");
                                reveal_strlit("}}");
                            }
                            match expand_rest(
                                after.subrange(end + 2, after.len() as int),
                                names,
                                row,
                                line,
                            ) {
                                Err(e) => Err(e),
                                Ok(t) => Ok(rest.subrange(0, start) + row_cell(row, idx) + t),
                            }
                        },
                    }
                },
            }
        },
    }
}

/// The first column whose cell is empty in `row`.
pub open spec fn first_empty_cell(names: Seq<Seq<char>>, row: Seq<Seq<char>>, j: int) -> Option<int>
    decreases names.len() - j,
{
    if j < 0 || j >= names.len() {
        None
    } else if row_cell(row, j).len() == 0 {
        Some(j)
    } else {
        first_empty_cell(names, row, j + 1)
    }
}

/// The lines produced by the first `n` rows of a template, or the first
/// error; rows after the first are separated by a blank line.
pub open spec fn expand_rows(
    template: Seq<char>,
    names: Seq<Seq<char>>,
    rows: Seq<Seq<Seq<char>>>,
    fence_line: nat,
    n: int,
) -> Result<Seq<Seq<char>>, Seq<char>>
    decreases n,
{
    if n <= 0 {
        Ok(seq![])
    } else {
        match expand_rows(template, names, rows, fence_line, n - 1) {
            Err(e) => Err(e),
            Ok(acc) => match first_empty_cell(names, rows[n - 1], 0) {
                Some(c) => Err(
                    "empty cell for column '"@ + names[c] + "' in row "@ + dec(n as nat)
                        + " of template at line "@ + dec(fence_line),
                ),
                None => match expand_rest(template, names, rows[n - 1], fence_line) {
                    Err(e) => Err(e),
                    Ok(x) => Ok(
                        acc + (if n - 1 > 0 {
                            seq![seq![]]
                        } else {
                            seq![]
                        }) + lines(x),
                    ),
                },
            },
        }
    }
}

/// The warning for a template with no table after it.
pub open spec fn no_table_warning() -> Seq<char> {
    "template block has no pipe table immediately after it"@
}

pub proof fn lemma_fence_close(ls: Seq<Seq<char>>, j: int, backtick: bool)
    requires
        0 <= j,
    ensures
        fence_close(ls, j, backtick) matches Some(c) ==> j <= c < ls.len(),
    decreases ls.len() - j,
{
    if j < ls.len() && !is_fence_close(ls[j], backtick) {
        lemma_fence_close(ls, j + 1, backtick);
    }
}

pub proof fn lemma_skip_blank(ls: Seq<Seq<char>>, j: int)
    requires
        0 <= j <= ls.len(),
    ensures
        j <= skip_blank(ls, j) <= ls.len(),
        skip_blank(ls, j) < ls.len() ==> !is_blank(ls[skip_blank(ls, j)]),
    decreases ls.len() - j,
{
    if j < ls.len() && is_blank(ls[j]) {
        lemma_skip_blank(ls, j + 1);
    }
}

/// The template scan from line `i`: output lines and warnings, or the first
/// error.
pub open spec fn template_scan(
    ls: Seq<Seq<char>>,
    i: int,
    out: Seq<Seq<char>>,
    warnings: Seq<(usize, Seq<char>)>,
) -> Result<(Seq<Seq<char>>, Seq<(usize, Seq<char>)>), Seq<char>>
    decreases ls.len() - i,
{
    if i < 0 || i >= ls.len() {
        Ok((out, warnings))
    } else if is_template_open(trim(ls[i])) {
        let backtick = trim(ls[i]) == "```template"@;
        match fence_close(ls, i + 1, backtick) {
            None => Ok((out + ls.subrange(i, ls.len() as int), warnings)),
            Some(c) => {
                proof {
                    lemma_fence_close(ls, i + 1, backtick);
                    lemma_skip_blank(ls, c + 1);
                }
                let template = join_nl(ls.subrange(i + 1, c));
                let h = skip_blank(ls, c + 1);
                if h >= ls.len() || !is_pipe(ls[h]) {
                    template_scan(
                        ls,
                        c + 1,
                        out + ls.subrange(i, c + 1),
                        warnings.push(((i + 1) as usize, no_table_warning())),
                    )
                } else {
                    let names = pipe_cells(ls[h]);
                    let end = pipe_run_end(ls, h + 1);
                    proof {
                        lemma_pipe_run_end(ls, h + 1);
                    }
                    let rows = Seq::new(
                        (end - h - 1) as nat,
                        |k: int| pipe_cells(ls[h + 1 + k]),
                    );
                    match expand_rows(template, names, rows, (i + 1) as nat, rows.len() as int) {
                        Err(e) => Err(e),
                        Ok(x) => template_scan(ls, end, out + x, warnings),
                    }
                }
            },
        }
    } else {
        template_scan(ls, i + 1, out.push(ls[i]), warnings)
    }
}

/// Template expansion of a whole document: its lines and warnings, or the
/// message of the first error.
pub open spec fn template_expand(ls: Seq<Seq<char>>) -> Result<
    (Seq<Seq<char>>, Seq<(usize, Seq<char>)>),
    Seq<char>,
> {
    template_scan(ls, 0, seq![], seq![])
}

proof fn lemma_scan_without_templates(
    ls: Seq<Seq<char>>,
    i: int,
    out: Seq<Seq<char>>,
    warnings: Seq<(usize, Seq<char>)>,
)
    requires
        0 <= i <= ls.len(),
        forall|k: int| 0 <= k < ls.len() ==> !is_template_open(trim(#[trigger] ls[k])),
    ensures
        template_scan(ls, i, out, warnings) == Ok::<(Seq<Seq<char>>, Seq<(usize, Seq<char>)>), Seq<char>>(
            (out + ls.subrange(i, ls.len() as int), warnings),
        ),
    decreases ls.len() - i,
{
    if i < ls.len() {
        assert(!is_template_open(trim(ls[i])));
        lemma_scan_without_templates(ls, i + 1, out.push(ls[i]), warnings);
        assert(out.push(ls[i]) + ls.subrange(i + 1, ls.len() as int) =~= out + ls.subrange(i, ls.len() as int));
    } else {
        assert(out + ls.subrange(i, ls.len() as int) =~= out);
    }
}

/// Text without a template fence passes through template expansion: its
/// lines come out as they are, with no warnings.
pub proof fn text_without_templates_is_unchanged(ls: Seq<Seq<char>>)
    requires
        forall|k: int| 0 <= k < ls.len() ==> !is_template_open(trim(#[trigger] ls[k])),
    ensures
        template_expand(ls) == Ok::<(Seq<Seq<char>>, Seq<(usize, Seq<char>)>), Seq<char>>((ls, seq![])),
{
    lemma_scan_without_templates(ls, 0, seq![], seq![]);
    assert(seq![] + ls.subrange(0, ls.len() as int) =~= ls);
}

/// `r` with `p` put before its text, errors unchanged.
pub open spec fn prefix_ok(p: Seq<char>, r: Result<Seq<char>, Seq<char>>) -> Result<
    Seq<char>,
    Seq<char>,
> {
    match r {
        Ok(t) => Ok(p + t),
        Err(e) => Err(e),
    }
}

/// First index of `name` among `names`.
pub fn position(names: &Vec<Vec<char>>, name: &Vec<char>) -> (r: Option<usize>)
    ensures
        match r {
            Some(k) => position_of(names.deep_view(), name@, 0) == Some(k as int),
            None => position_of(names.deep_view(), name@, 0) is None,
        },
{
    let ghost nv = names.deep_view();
    let mut j: usize = 0;
    while j < names.len()
        invariant
            0 <= j <= names.len(),
            nv == names.deep_view(),
            position_of(nv, name@, 0) == position_of(nv, name@, j as int),
        decreases names.len() - j,
    {
        assert(nv[j as int] == names[j as int]@);
        if chars_eq(&names[j], name) {
            return Some(j);
        }
        j = j + 1;
    }
    None
}

/// The cell of a row under column `j`.
fn row_cell_exec(row: &Vec<Vec<char>>, j: usize) -> (r: Vec<char>)
    ensures
        r@ == row_cell(row.deep_view(), j as int),
{
    if j < row.len() {
        assert(row.deep_view()[j as int] == row[j as int]@);
        slice_of(&row[j], 0, row[j].len())
    } else {
        Vec::new()
    }
}

/// Substitutes one row into a template; the message of the first unknown
/// placeholder otherwise.
pub fn expand_template_row(
    template: &Vec<char>,
    names: &Vec<Vec<char>>,
    row: &Vec<Vec<char>>,
    line: usize,
) -> (r: Result<Vec<char>, Vec<char>>)
    ensures
        match r {
            Ok(t) => expand_rest(template@, names.deep_view(), row.deep_view(), line as nat) == Ok::<
                Seq<char>,
                Seq<char>,
            >(t@),
            Err(e) => expand_rest(template@, names.deep_view(), row.deep_view(), line as nat)
                == Err::<Seq<char>, Seq<char>>(e@),
        },
{
    let ghost nv = names.deep_view();
    let ghost rv = row.deep_view();
    let open = chars_of("{{");
    let close = chars_of("}}");
    proof {
        reveal_strlit("{{");
        reveal_strlit("}}");
    }
    let mut result: Vec<char> = Vec::new();
    let mut rest = slice_of(template, 0, template.len());
    assert(rest@ =~= template@);
    assert(result@ + rest@ =~= rest@);
    loop
        invariant
            nv == names.deep_view(),
            rv == row.deep_view(),
            open@ == "{{"@,
            close@ == "}}"@,
            open@.len() == 2,
            close@.len() == 2,
            expand_rest(template@, nv, rv, line as nat) == prefix_ok(
                result@,
                expand_rest(rest@, nv, rv, line as nat),
            ),
        decreases rest@.len(),
    {
        match find_exec(&rest, &open) {
            None => {
                append_all(&mut result, &rest);
                return Ok(result);
            },
            Some(start) => {
                proof {
                    lemma_find_from(rest@, open@, 0);
                    assert(find(rest@, open@) == Some(start as int));
                    assert(crate::text::matches_at(rest@, open@, start as int));
                }
                assert(start + 2 <= rest.len());
                let after = slice_of(&rest, start + 2, rest.len());
                match find_exec(&after, &close) {
                    None => {
                        append_all(&mut result, &rest);
                        return Ok(result);
                    },
                    Some(end) => {
                        proof {
                            lemma_find_from(after@, close@, 0);
                        }
                        let raw = slice_of(&after, 0, end);
                        let name = trim_chars(&raw);
                        match position(names, &name) {
                            None => {
                                let mut m = chars_of("unknown placeholder '");
                                append_all(&mut m, &name);
                                push_str(&mut m, "' in template at line ");
                                let d = dec_chars(line as u64);
                                append_all(&mut m, &d);
                                return Err(m);
                            },
                            Some(idx) => {
                                let before = slice_of(&rest, 0, start);
                                let cell = row_cell_exec(row, idx);
                                let ghost old_result = result@;
                                append_all(&mut result, &before);
                                append_all(&mut result, &cell);
                                let next = slice_of(&after, end + 2, after.len());
                                proof {
                                    let tail = expand_rest(next@, nv, rv, line as nat);
                                    assert(expand_rest(rest@, nv, rv, line as nat) == match tail {
                                        Err(e) => Err(e),
                                        Ok(t) => Ok(before@ + cell@ + t),
                                    });
                                    match tail {
                                        Ok(t) => {
                                            assert(old_result + (before@ + cell@ + t) =~= result@
                                                + t);
                                        },
                                        Err(e) => {},
                                    }
                                }
                                rest = next;
                            },
                        }
                    },
                }
            },
        }
    }
}

/// The first column whose cell is empty.
fn first_empty(names: &Vec<Vec<char>>, row: &Vec<Vec<char>>) -> (r: Option<usize>)
    ensures
        match r {
            Some(k) => first_empty_cell(names.deep_view(), row.deep_view(), 0) == Some(k as int),
            None => first_empty_cell(names.deep_view(), row.deep_view(), 0) is None,
        },
{
    let mut j: usize = 0;
    while j < names.len()
        invariant
            0 <= j <= names.len(),
            first_empty_cell(names.deep_view(), row.deep_view(), 0) == first_empty_cell(
                names.deep_view(),
                row.deep_view(),
                j as int,
            ),
        decreases names.len() - j,
    {
        let c = row_cell_exec(row, j);
        if c.len() == 0 {
            return Some(j);
        }
        j = j + 1;
    }
    None
}

/// Appends copies of lines `a..b` of `lines`.
fn push_lines(out: &mut Vec<Vec<char>>, lines: &Vec<Vec<char>>, a: usize, b: usize)
    requires
        a <= b <= lines.len(),
    ensures
        final(out).deep_view() == old(out).deep_view() + lines.deep_view().subrange(
            a as int,
            b as int,
        ),
{
    let ghost ls = lines.deep_view();
    let mut k = a;
    while k < b
        invariant
            a <= k <= b <= lines.len(),
            ls == lines.deep_view(),
            out.deep_view() == old(out).deep_view() + ls.subrange(a as int, k as int),
        decreases b - k,
    {
        let l = slice_of(&lines[k], 0, lines[k].len());
        assert(l@ =~= ls[k as int]);
        let ghost before = out.deep_view();
        proof {
            lemma_chars_deep_view(l);
        }
        out.push(l);
        assert(out.deep_view() =~= before.push(ls[k as int]));
        k = k + 1;
        assert(out.deep_view() =~= old(out).deep_view() + ls.subrange(a as int, k as int));
    }
}

/// Appends copies of all of `more`.
fn push_all_lines(out: &mut Vec<Vec<char>>, more: &Vec<Vec<char>>)
    ensures
        final(out).deep_view() == old(out).deep_view() + more.deep_view(),
{
    push_lines(out, more, 0, more.len());
    assert(more.deep_view().subrange(0, more.len() as int) =~= more.deep_view());
}

/// Expands the template blocks of `markdown`; non-template text passes
/// through, and a template with no table after it is kept with a warning.
pub fn expand_templates(markdown: &Vec<char>) -> (r: Result<(Vec<char>, Vec<Warning>), ParseError>)
    ensures
        match r {
            Ok((t, w)) => template_expand(lines(markdown@)) matches Ok((o, ws)) && t@ == join_nl(
                o,
            ) && warning_views(w@) == ws,
            Err(e) => template_expand(lines(markdown@)) matches Err(m) && e matches ParseError::TemplateError(
                s,
            ) && s@ == m,
        },
{
    let lines = lines_exec(markdown);
    let ghost ls = lines.deep_view();
    let mut out: Vec<Vec<char>> = Vec::new();
    let mut warnings: Vec<Warning> = Vec::new();
    assert(warning_views(warnings@) =~= seq![]);
    assert(out.deep_view() =~= seq![]);
    let mut i: usize = 0;
    while i < lines.len()
        invariant
            0 <= i <= lines.len(),
            ls == lines.deep_view(),
            ls == crate::text::lines(markdown@),
            template_expand(ls) == template_scan(
                ls,
                i as int,
                out.deep_view(),
                warning_views(warnings@),
            ),
        decreases lines.len() - i,
    {
        assert(ls[i as int] == lines[i as int]@);
        let ghost out0 = out.deep_view();
        let ghost w0 = warning_views(warnings@);
        let trimmed = trim_chars(&lines[i]);
        let backtick = chars_eq(&trimmed, &chars_of("```template"));
        if !(backtick || chars_eq(&trimmed, &chars_of("~~~template"))) {
            let l = slice_of(&lines[i], 0, lines[i].len());
            assert(l@ =~= ls[i as int]);
            proof {
                lemma_chars_deep_view(l);
            }
            out.push(l);
            assert(out.deep_view() =~= out0.push(ls[i as int]));
            i = i + 1;
        } else {
            let fence_open = i;
            let fence = if backtick {
                chars_of("```")
            } else {
                chars_of("~~~")
            };
            let mut j = i + 1;
            let mut close: Option<usize> = None;
            while j < lines.len()
                invariant_except_break
                    close is None,
                invariant
                    fence_open < j <= lines.len(),
                    ls == lines.deep_view(),
                    fence@ == (if backtick {
                        "```"@
                    } else {
                        "~~~"@
                    }),
                    fence_close(ls, fence_open + 1, backtick) == fence_close(ls, j as int, backtick),
                ensures
                    match close {
                        Some(c) => fence_close(ls, fence_open + 1, backtick) == Some(c as int),
                        None => fence_close(ls, fence_open + 1, backtick) is None,
                    },
                decreases lines.len() - j,
            {
                assert(ls[j as int] == lines[j as int]@);
                let t = trim_chars(&lines[j]);
                if starts_with_exec(&t, &fence) {
                    close = Some(j);
                    break ;
                }
                j = j + 1;
            }
            match close {
                None => {
                    push_lines(&mut out, &lines, fence_open, lines.len());
                    assert(template_scan(ls, fence_open as int, out0, w0) == Ok::<
                        (Seq<Seq<char>>, Seq<(usize, Seq<char>)>),
                        Seq<char>,
                    >((out.deep_view(), warning_views(warnings@))));
                    let joined = join_lines(&out);
                    return Ok((joined, warnings));
                },
                Some(c) => {
                    proof {
                        lemma_fence_close(ls, fence_open + 1, backtick);
                    }
                    let template = join_range(&lines, fence_open + 1, c);
                    let mut h = c + 1;
                    proof {
                        lemma_skip_blank(ls, h as int);
                    }
                    while h < lines.len() && is_blank_line(&lines[h])
                        invariant
                            c < h <= lines.len(),
                            ls == lines.deep_view(),
                            skip_blank(ls, c + 1) == skip_blank(ls, h as int),
                        decreases lines.len() - h,
                    {
                        assert(ls[h as int] == lines[h as int]@);
                        h = h + 1;
                    }
                    proof {
                        if h < lines.len() {
                            assert(ls[h as int] == lines[h as int]@);
                        }
                        lemma_skip_blank(ls, h as int);
                    }
                    if h >= lines.len() || !is_pipe_line(&lines[h]) {
                        push_lines(&mut out, &lines, fence_open, c + 1);
                        let w = Warning::new(
                            fence_open + 1,
                            string_of(&chars_of("template block has no pipe table immediately after it")),
                        );
                        let ghost wb = warnings@;
                        warnings.push(w);
                        assert(warning_views(warnings@) =~= warning_views(wb).push(w@));
                        i = c + 1;
                    } else {
                        assert(ls[h as int] == lines[h as int]@);
                        let names = split_pipe_cells(&lines[h]);
                        let mut end = h + 1;
                        proof {
                            lemma_pipe_run_end(ls, end as int);
                        }
                        while end < lines.len() && is_pipe_line(&lines[end])
                            invariant
                                h < end <= lines.len(),
                                ls == lines.deep_view(),
                                pipe_run_end(ls, h + 1) == pipe_run_end(ls, end as int),
                            decreases lines.len() - end,
                        {
                            assert(ls[end as int] == lines[end as int]@);
                            end = end + 1;
                        }
                        proof {
                            if end < lines.len() {
                                assert(ls[end as int] == lines[end as int]@);
                            }
                            lemma_pipe_run_end(ls, end as int);
                        }
                        let ghost rows = Seq::new(
                            (end - h - 1) as nat,
                            |k: int| pipe_cells(ls[h + 1 + k]),
                        );
                        let ghost tv = template@;
                        let ghost nv = names.deep_view();
                        let ghost fl = (fence_open + 1) as nat;
                        let mut produced: Vec<Vec<char>> = Vec::new();
                        assert(produced.deep_view() =~= seq![]);
                        let ghost scan_here = template_scan(ls, fence_open as int, out0, w0);
                        assert(scan_here == match expand_rows(tv, nv, rows, fl, rows.len() as int) {
                            Err(e) => Err(e),
                            Ok(x) => template_scan(ls, end as int, out0 + x, w0),
                        });
                        let mut r = h + 1;
                        while r < end
                            invariant
                                h + 1 <= r <= end <= lines.len(),
                                ls == lines.deep_view(),
                                fence_open < lines.len(),
                                fl == fence_open + 1,
                                ls == crate::text::lines(markdown@),
                                template_expand(ls) == scan_here,
                                scan_here == template_scan(ls, fence_open as int, out0, w0),
                                scan_here == match expand_rows(
                                    tv,
                                    nv,
                                    rows,
                                    fl,
                                    rows.len() as int,
                                ) {
                                    Err(e) => Err(e),
                                    Ok(x) => template_scan(ls, end as int, out0 + x, w0),
                                },
                                tv == template@,
                                nv == names.deep_view(),
                                rows == Seq::new(
                                    (end - h - 1) as nat,
                                    |k: int| pipe_cells(ls[h + 1 + k]),
                                ),
                                expand_rows(tv, nv, rows, fl, r - h - 1) == Ok::<
                                    Seq<Seq<char>>,
                                    Seq<char>,
                                >(produced.deep_view()),
                            decreases end - r,
                        {
                            let k = r - h - 1;
                            assert(ls[r as int] == lines[r as int]@);
                            let cells = split_pipe_cells(&lines[r]);
                            assert(cells.deep_view() == rows[k as int]);
                            match first_empty(&names, &cells) {
                                Some(col) => {
                                    proof {
                                        lemma_first_empty_cell(nv, cells.deep_view(), 0);
                                    }
                                    let mut m = chars_of("empty cell for column '");
                                    assert(nv[col as int] == names[col as int]@);
                                    append_all(&mut m, &names[col]);
                                    push_str(&mut m, "' in row ");
                                    let d = dec_chars((k + 1) as u64);
                                    append_all(&mut m, &d);
                                    push_str(&mut m, " of template at line ");
                                    let d2 = dec_chars((fence_open + 1) as u64);
                                    append_all(&mut m, &d2);
                                    assert(expand_rows(tv, nv, rows, fl, k + 1) == Err::<
                                        Seq<Seq<char>>,
                                        Seq<char>,
                                    >(m@));
                                    assert(template_scan(ls, fence_open as int, out0, w0) == Err::<
                                        (Seq<Seq<char>>, Seq<(usize, Seq<char>)>),
                                        Seq<char>,
                                    >(m@)) by {
                                        lemma_expand_rows_err(tv, nv, rows, fl, k + 1, m@);
                                    }
                                    return Err(ParseError::TemplateError(string_of(&m)));
                                },
                                None => {},
                            }
                            match expand_template_row(&template, &names, &cells, fence_open + 1) {
                                Err(e) => {
                                    assert(expand_rows(tv, nv, rows, fl, k + 1) == Err::<
                                        Seq<Seq<char>>,
                                        Seq<char>,
                                    >(e@));
                                    assert(template_scan(ls, fence_open as int, out0, w0) == Err::<
                                        (Seq<Seq<char>>, Seq<(usize, Seq<char>)>),
                                        Seq<char>,
                                    >(e@)) by {
                                        lemma_expand_rows_err(tv, nv, rows, fl, k + 1, e@);
                                    }
                                    return Err(ParseError::TemplateError(string_of(&e)));
                                },
                                Ok(x) => {
                                    let ghost pb = produced.deep_view();
                                    if k > 0 {
                                        let empty: Vec<char> = Vec::new();
                                        proof {
                                            lemma_chars_deep_view(empty);
                                        }
                                        produced.push(empty);
                                        assert(produced.deep_view() =~= pb.push(seq![]));
                                    }
                                    let xl = lines_exec(&x);
                                    let ghost pm = produced.deep_view();
                                    push_all_lines(&mut produced, &xl);
                                    assert(produced.deep_view() =~= pb + (if k > 0 {
                                        seq![seq![]]
                                    } else {
                                        seq![]
                                    }) + crate::text::lines(x@));
                                },
                            }
                            r = r + 1;
                        }
                        assert(rows.len() == end - h - 1);
                        push_all_lines(&mut out, &produced);
                        i = end;
                    }
                },
            }
            assert(template_scan(ls, fence_open as int, out0, w0) == template_scan(
                ls,
                i as int,
                out.deep_view(),
                warning_views(warnings@),
            ));
        }
    }
    let joined = join_lines(&out);
    Ok((joined, warnings))
}

pub proof fn lemma_first_empty_cell(names: Seq<Seq<char>>, row: Seq<Seq<char>>, j: int)
    ensures
        first_empty_cell(names, row, j) matches Some(c) ==> j <= c < names.len(),
    decreases names.len() - j,
{
    if 0 <= j < names.len() && row_cell(row, j).len() != 0 {
        lemma_first_empty_cell(names, row, j + 1);
    }
}

/// An error in the first `n` rows is an error of every later count.
pub proof fn lemma_expand_rows_err(
    template: Seq<char>,
    names: Seq<Seq<char>>,
    rows: Seq<Seq<Seq<char>>>,
    fence_line: nat,
    n: int,
    e: Seq<char>,
)
    requires
        0 <= n <= rows.len(),
        expand_rows(template, names, rows, fence_line, n) == Err::<Seq<Seq<char>>, Seq<char>>(e),
    ensures
        expand_rows(template, names, rows, fence_line, rows.len() as int) == Err::<
            Seq<Seq<char>>,
            Seq<char>,
        >(e),
    decreases rows.len() - n,
{
    if n < rows.len() {
        lemma_expand_rows_err(template, names, rows, fence_line, n + 1, e);
    }
}

/// White space around a name is trimmed away.
proof fn lemma_trim_padded(w1: Seq<char>, n: Seq<char>, w2: Seq<char>)
    requires
        n.len() > 0,
        !is_ws(n[0]),
        !is_ws(n.last()),
        forall|i: int| 0 <= i < w1.len() ==> is_ws(#[trigger] w1[i]),
        forall|i: int| 0 <= i < w2.len() ==> is_ws(#[trigger] w2[i]),
    ensures
        trim(w1 + n + w2) == n,
{
    let s = w1 + n + w2;
    lemma_skip_ws_bounds(s, 0);
    let a = skip_ws(s, 0);
    if a < w1.len() {
        assert(is_ws(s[a]));
    } else if a > w1.len() {
        assert(s[w1.len() as int] == n[0]);
    }
    assert(a == w1.len());
    let t = s.subrange(a, s.len() as int);
    assert(t =~= n + w2);
    lemma_back_ws_bounds(t, t.len() as int);
    let b = back_ws(t, t.len() as int);
    if b > n.len() {
        assert(is_ws(t[b - 1]));
        assert(t[b - 1] == w2[b - 1 - n.len()]);
    } else if b < n.len() {
        assert(t[n.len() - 1] == n.last());
    }
    assert(b == n.len());
    assert(t.subrange(0, b) =~= n);
}

/// `p` found where it first occurs.
proof fn lemma_find_first(s: Seq<char>, p: Seq<char>, k: int)
    requires
        matches_at(s, p, k),
        forall|j: int| 0 <= j < k ==> !#[trigger] matches_at(s, p, j),
    ensures
        find(s, p) == Some(k),
{
    lemma_find_from(s, p, 0);
}

/// White space inside the braces of a placeholder does not matter: with any
/// padding, `{{ name }}` is replaced, like `{{name}}`, by the row's cell
/// under the first column with that name.
pub proof fn placeholder_padding_is_ignored(
    names: Seq<Seq<char>>,
    row: Seq<Seq<char>>,
    line: nat,
    n: Seq<char>,
    w1: Seq<char>,
    w2: Seq<char>,
    k: int,
)
    requires
        0 <= k < names.len(),
        names[k] == n,
        forall|j: int| 0 <= j < k ==> names[j] != n,
        n.len() > 0,
        !is_ws(n[0]),
        !is_ws(n.last()),
        !n.contains('}'),
        forall|i: int| 0 <= i < w1.len() ==> is_ws(#[trigger] w1[i]),
        forall|i: int| 0 <= i < w2.len() ==> is_ws(#[trigger] w2[i]),
    ensures
        expand_rest("{{"@ + w1 + n + w2 + "}}"@, names, row, line) == Ok::<Seq<char>, Seq<char>>(row_cell(row, k)),
        expand_rest("{{"@ + n + "}}"@, names, row, line) == Ok::<Seq<char>, Seq<char>>(row_cell(row, k)),
{
    lemma_placeholder(names, row, line, n, w1, w2, k);
    lemma_placeholder(names, row, line, n, seq![], seq![], k);
    assert(seq![] + n + seq![] =~= n);
}

proof fn lemma_placeholder(
    names: Seq<Seq<char>>,
    row: Seq<Seq<char>>,
    line: nat,
    n: Seq<char>,
    w1: Seq<char>,
    w2: Seq<char>,
    k: int,
)
    requires
        0 <= k < names.len(),
        names[k] == n,
        forall|j: int| 0 <= j < k ==> names[j] != n,
        n.len() > 0,
        !is_ws(n[0]),
        !is_ws(n.last()),
        !n.contains('}'),
        forall|i: int| 0 <= i < w1.len() ==> is_ws(#[trigger] w1[i]),
        forall|i: int| 0 <= i < w2.len() ==> is_ws(#[trigger] w2[i]),
    ensures
        expand_rest("{{"@ + w1 + n + w2 + "}}"@, names, row, line) == Ok::<Seq<char>, Seq<char>>(row_cell(row, k)),
{
    reveal_strlit("{{");
    reveal_strlit("}}");
    let inner = w1 + n + w2;
    let rest = "{{"@ + inner + "}}"@;
    assert(rest.subrange(0, 2) =~= "{{"@);
    lemma_find_first(rest, "{{"@, 0);
    let after = rest.subrange(2, rest.len() as int);
    assert(after =~= inner + "}}"@);
    let m = inner.len() as int;
    assert(after.subrange(m, m + 2) =~= "}}"@);
    assert forall|j: int| 0 <= j < m implies !#[trigger] matches_at(after, "}}"@, j) by {
        if matches_at(after, "}}"@, j) {
            assert(after.subrange(j, j + 2)[0] == '}');
            assert(after[j] == '}');
            assert(inner[j] == '}');
            if j < w1.len() {
                assert(is_ws(w1[j]));
            } else if j < w1.len() + n.len() {
                assert(n[j - w1.len()] == '}');
                assert(n.contains('}'));
            } else {
                assert(is_ws(w2[j - w1.len() - n.len()]));
            }
        }
    }
    lemma_find_first(after, "}}"@, m);
    assert(after.subrange(0, m) =~= inner);
    lemma_trim_padded(w1, n, w2);
    assert(position_of(names, n, 0) == Some(k)) by {
        lemma_position_first(names, n, 0, k);
    }
    let tail = after.subrange(m + 2, after.len() as int);
    assert(tail =~= Seq::<char>::empty());
    assert(find(tail, "{{"@) is None) by {
        lemma_find_from(tail, "{{"@, 0);
    }
    assert(expand_rest(tail, names, row, line) == Ok::<Seq<char>, Seq<char>>(tail));
    assert(rest.subrange(0, 0) + row_cell(row, k) + tail =~= row_cell(row, k));
    assert(after.subrange(m + 2, after.len() as int) == tail);
    assert(trim(after.subrange(0, m)) == n);
    assert(expand_rest(rest, names, row, line) == Ok::<Seq<char>, Seq<char>>(rest.subrange(0, 0) + row_cell(row, k) + tail));
    assert("{{"@ + w1 + n + w2 + "}}"@ =~= rest);
}

proof fn lemma_position_first(names: Seq<Seq<char>>, n: Seq<char>, j: int, k: int)
    requires
        0 <= j <= k < names.len(),
        names[k] == n,
        forall|i: int| 0 <= i < k ==> names[i] != n,
    ensures
        position_of(names, n, j) == Some(k),
    decreases k - j,
{
    if j < k {
        lemma_position_first(names, n, j + 1, k);
    }
}

} // verus!
