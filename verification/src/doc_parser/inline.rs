//! Cards written inline in list items and paragraphs (`question -> answer`),
//! built from the Markdown event stream by a small state machine.
use crate::doc_parser::types::{card_of, make_card_of, Card, CardType, CardView};
use crate::text::{
    append_all, chars_of, find, find_exec, lemma_find_from, matches_at, push_str, slice_of,
    trim, trim_chars, trim_end, trim_end_chars, trim_start, trim_start_chars,
};
use vstd::prelude::*;

verus! {

/// One unit of inline content.
pub enum Span {
    /// Plain text; may hold `->` or `<->`.
    Text(Vec<char>),
    /// Inline code; arrows in it never separate a card.
    Code(Vec<char>),
    /// An inline image.
    Image { url: Vec<char>, alt: Vec<char> },
}

/// The value of a span.
pub enum SpanView {
    Text(Seq<char>),
    Code(Seq<char>),
    Image(Seq<char>, Seq<char>),
}

impl View for Span {
    type V = SpanView;

    open spec fn view(&self) -> SpanView {
        match self {
            Span::Text(t) => SpanView::Text(t@),
            Span::Code(t) => SpanView::Code(t@),
            Span::Image { url, alt } => SpanView::Image(url@, alt@),
        }
    }
}

/// The values of a sequence of spans.
pub open spec fn span_views(s: Seq<Span>) -> Seq<SpanView> {
    s.map_values(|x: Span| x@)
}

/// The text of one span in a card field; an image becomes an `<img>` tag.
pub open spec fn render_span(s: SpanView) -> Seq<char> {
    match s {
        SpanView::Text(t) => t,
        SpanView::Code(t) => t,
        SpanView::Image(u, a) => "<img src=\""@ + u + "\" alt=\""@ + a + "\">"@,
    }
}

/// The text of a span sequence.
pub open spec fn render(s: Seq<SpanView>) -> Seq<char>
    decreases s.len(),
{
    if s.len() == 0 {
        seq![]
    } else {
        render(s.drop_last()) + render_span(s.last())
    }
}

/// `s` with text `t` appended, merged into a trailing text span.
pub open spec fn push_text(s: Seq<SpanView>, t: Seq<char>) -> Seq<SpanView> {
    if s.len() > 0 {
        match s.last() {
            SpanView::Text(last) => s.drop_last().push(SpanView::Text(last + t)),
            _ => s.push(SpanView::Text(t)),
        }
    } else {
        s.push(SpanView::Text(t))
    }
}

/// Split at the first `arrow` inside a text span at or after index `i`; the
/// arrow is dropped and the text on both sides trimmed (empty sides vanish).
pub open spec fn split_at_arrow(s: Seq<SpanView>, arrow: Seq<char>, i: int) -> Option<
    (Seq<SpanView>, Seq<SpanView>),
>
    decreases s.len() - i,
{
    if i < 0 || i >= s.len() {
        None
    } else {
        match s[i] {
            SpanView::Text(t) => match find(t, arrow) {
                Some(pos) => {
                    let l = trim_end(t.subrange(0, pos));
                    let r = trim_start(t.subrange(pos + arrow.len(), t.len() as int));
                    Some(
                        (
                            s.subrange(0, i) + (if l.len() > 0 {
                                seq![SpanView::Text(l)]
                            } else {
                                seq![]
                            }),
                            (if r.len() > 0 {
                                seq![SpanView::Text(r)]
                            } else {
                                seq![]
                            }) + s.subrange(i + 1, s.len() as int),
                        ),
                    )
                },
                None => split_at_arrow(s, arrow, i + 1),
            },
            _ => split_at_arrow(s, arrow, i + 1),
        }
    }
}

/// Texts of the context entries shallower than `depth`, among the first `n`.
pub open spec fn ancestors(ctx: Seq<(usize, Seq<char>)>, depth: usize, n: int) -> Seq<Seq<char>>
    decreases n,
{
    if n <= 0 {
        seq![]
    } else if ctx[n - 1].0 < depth {
        ancestors(ctx, depth, n - 1).push(ctx[n - 1].1)
    } else {
        ancestors(ctx, depth, n - 1)
    }
}

/// `n` levels of four-space indentation.
pub open spec fn indent(n: nat) -> Seq<char>
    decreases n,
{
    if n == 0 {
        seq![]
    } else {
        indent((n - 1) as nat) + "    "@
    }
}

/// The first `n` ancestors as an indented list, one per line.
pub open spec fn ancestor_lines(anc: Seq<Seq<char>>, n: int) -> Seq<char>
    decreases n,
{
    if n <= 0 {
        seq![]
    } else {
        ancestor_lines(anc, n - 1) + indent((n - 1) as nat) + "- "@ + anc[n - 1] + "\n"@
    }
}

/// `current` under its ancestor items, as an indented list.
pub open spec fn context_question(ctx: Seq<(usize, Seq<char>)>, depth: usize, current: Seq<char>) -> Seq<
    char,
> {
    let anc = ancestors(ctx, depth, ctx.len() as int);
    if anc.len() == 0 {
        current
    } else {
        ancestor_lines(anc, anc.len() as int) + indent(anc.len()) + "- "@ + current
    }
}

/// The card of a leaf item or paragraph, trying `<->` before `->`; a `->`
/// item under a heading and outside nested lists asks `key →?` below it.
pub open spec fn make_card_spec(
    spans: Seq<SpanView>,
    ctx: Seq<(usize, Seq<char>)>,
    depth: usize,
    heading: Option<Seq<char>>,
) -> Option<CardView> {
    match split_at_arrow(spans, "<->"@, 0) {
        Some((l, r)) => Some(
            card_of(
                CardType::Bidirectional,
                context_question(ctx, depth, trim(render(l)) + " <-> ?"@),
                trim(render(r)),
            ),
        ),
        None => match split_at_arrow(spans, "->"@, 0) {
            Some((l, r)) => {
                let key = trim(render(l));
                let question = match heading {
                    Some(subject) => if ctx.len() == 0 {
                        subject + "\n"@ + key + " \u{2192}?"@
                    } else {
                        context_question(ctx, depth, key + " -> ?"@)
                    },
                    None => context_question(ctx, depth, key + " -> ?"@),
                };
                Some(card_of(CardType::Basic, question, trim(render(r))))
            },
            None => None,
        },
    }
}

/// A copy of a character vector.
pub fn copy_chars(t: &Vec<char>) -> (r: Vec<char>)
    ensures
        r@ == t@,
{
    let r = slice_of(t, 0, t.len());
    assert(r@ =~= t@);
    r
}

/// A copy of a span.
pub fn copy_span(s: &Span) -> (r: Span)
    ensures
        r@ == s@,
{
    match s {
        Span::Text(t) => Span::Text(copy_chars(t)),
        Span::Code(t) => Span::Code(copy_chars(t)),
        Span::Image { url, alt } => Span::Image { url: copy_chars(url), alt: copy_chars(alt) },
    }
}

/// Copies of spans `a..b`.
pub fn copy_spans(s: &Vec<Span>, a: usize, b: usize) -> (r: Vec<Span>)
    requires
        a <= b <= s.len(),
    ensures
        span_views(r@) == span_views(s@).subrange(a as int, b as int),
{
    let mut r: Vec<Span> = Vec::new();
    let mut k = a;
    while k < b
        invariant
            a <= k <= b <= s.len(),
            span_views(r@) == span_views(s@).subrange(a as int, k as int),
        decreases b - k,
    {
        let x = copy_span(&s[k]);
        let ghost before = r@;
        r.push(x);
        assert(span_views(r@) =~= span_views(before).push(x@));
        k = k + 1;
        assert(span_views(r@) =~= span_views(s@).subrange(a as int, k as int));
    }
    r
}

/// The text of a span sequence.
pub fn render_exec(spans: &Vec<Span>) -> (r: Vec<char>)
    ensures
        r@ == render(span_views(spans@)),
{
    let ghost sv = span_views(spans@);
    let mut out: Vec<char> = Vec::new();
    let mut i: usize = 0;
    while i < spans.len()
        invariant
            0 <= i <= spans.len(),
            sv == span_views(spans@),
            out@ == render(sv.take(i as int)),
        decreases spans.len() - i,
    {
        assert(sv.take(i + 1).drop_last() =~= sv.take(i as int));
        match &spans[i] {
            Span::Text(t) => append_all(&mut out, t),
            Span::Code(t) => append_all(&mut out, t),
            Span::Image { url, alt } => {
                push_str(&mut out, "<img src=\"");
                append_all(&mut out, url);
                push_str(&mut out, "\" alt=\"");
                append_all(&mut out, alt);
                push_str(&mut out, "\">");
            },
        }
        i = i + 1;
        assert(out@ =~= render(sv.take(i as int)));
    }
    assert(sv.take(spans.len() as int) =~= sv);
    out
}

/// Appends text, merging it into a trailing text span.
pub fn push_text_exec(spans: &mut Vec<Span>, s: &Vec<char>)
    ensures
        span_views(final(spans)@) == push_text(span_views(old(spans)@), s@),
{
    match spans.pop() {
        Some(Span::Text(mut t)) => {
            append_all(&mut t, s);
            spans.push(Span::Text(t));
        },
        Some(other) => {
            spans.push(other);
            spans.push(Span::Text(copy_chars(s)));
        },
        None => {
            spans.push(Span::Text(copy_chars(s)));
        },
    }
    assert(span_views(spans@) =~= push_text(span_views(old(spans)@), s@));
}

/// Splits at the first `arrow` inside a text span.
pub fn split_at_arrow_exec(spans: &Vec<Span>, arrow: &Vec<char>) -> (r: Option<(Vec<Span>, Vec<Span>)>)
    ensures
        match r {
            Some((l, rr)) => split_at_arrow(span_views(spans@), arrow@, 0) == Some(
                (span_views(l@), span_views(rr@)),
            ),
            None => split_at_arrow(span_views(spans@), arrow@, 0) is None,
        },
{
    let ghost sv = span_views(spans@);
    let mut i: usize = 0;
    while i < spans.len()
        invariant
            0 <= i <= spans.len(),
            sv == span_views(spans@),
            split_at_arrow(sv, arrow@, 0) == split_at_arrow(sv, arrow@, i as int),
        decreases spans.len() - i,
    {
        if let Span::Text(t) = &spans[i] {
            if let Some(pos) = find_exec(t, arrow) {
                proof {
                    lemma_find_from(t@, arrow@, 0);
                    assert(find(t@, arrow@) == Some(pos as int));
                    assert(matches_at(t@, arrow@, pos as int));
                }
                assert(pos + arrow.len() <= t.len());
                let head = slice_of(t, 0, pos);
                let lhs_tail = trim_end_chars(&head);
                let tail = slice_of(t, pos + arrow.len(), t.len());
                let rhs_head = trim_start_chars(&tail);
                let mut lhs = copy_spans(spans, 0, i);
                if lhs_tail.len() > 0 {
                    let ghost b = lhs@;
                    lhs.push(Span::Text(lhs_tail));
                    assert(span_views(lhs@) =~= span_views(b).push(SpanView::Text(lhs_tail@)));
                } else {
                    assert(span_views(lhs@) =~= span_views(lhs@) + seq![]);
                }
                let mut rhs: Vec<Span> = Vec::new();
                if rhs_head.len() > 0 {
                    rhs.push(Span::Text(rhs_head));
                }
                let rest = copy_spans(spans, i + 1, spans.len());
                let ghost rb = rhs@;
                let mut k: usize = 0;
                while k < rest.len()
                    invariant
                        0 <= k <= rest.len(),
                        span_views(rhs@) == span_views(rb) + span_views(rest@).take(k as int),
                    decreases rest.len() - k,
                {
                    let x = copy_span(&rest[k]);
                    let ghost before = rhs@;
                    rhs.push(x);
                    assert(span_views(rhs@) =~= span_views(before).push(x@));
                    k = k + 1;
                    assert(span_views(rhs@) =~= span_views(rb) + span_views(rest@).take(k as int));
                }
                assert(span_views(rest@).take(rest.len() as int) =~= span_views(rest@));
                proof {
                    if rhs_head@.len() > 0 {
                        assert(span_views(rb) =~= seq![SpanView::Text(rhs_head@)]);
                    } else {
                        assert(span_views(rb) =~= seq![]);
                    }
                }
                return Some((lhs, rhs));
            }
        }
        i = i + 1;
    }
    None
}

/// Four spaces, `n` times.
fn indent_exec(n: usize) -> (r: Vec<char>)
    ensures
        r@ == indent(n as nat),
{
    let mut r: Vec<char> = Vec::new();
    let mut k: usize = 0;
    while k < n
        invariant
            0 <= k <= n,
            r@ == indent(k as nat),
        decreases n - k,
    {
        push_str(&mut r, "    ");
        k = k + 1;
    }
    r
}

/// `current` under its ancestor items, as an indented list.
pub fn build_context_question(context: &Vec<(usize, Vec<char>)>, current_depth: usize, current: &Vec<
    char,
>) -> (r: Vec<char>)
    ensures
        r@ == context_question(context_views(context@), current_depth, current@),
{
    let ghost cv = context_views(context@);
    let mut anc: Vec<Vec<char>> = Vec::new();
    let mut i: usize = 0;
    while i < context.len()
        invariant
            0 <= i <= context.len(),
            cv == context_views(context@),
            anc.deep_view() == ancestors(cv, current_depth, i as int),
        decreases context.len() - i,
    {
        if context[i].0 < current_depth {
            let t = copy_chars(&context[i].1);
            let ghost before = anc.deep_view();
            proof {
                crate::text::lemma_chars_deep_view(t);
            }
            anc.push(t);
            assert(anc.deep_view() =~= before.push(cv[i as int].1));
        }
        i = i + 1;
    }
    let ghost av = anc.deep_view();
    if anc.len() == 0 {
        return slice_of(current, 0, current.len());
    }
    let mut q: Vec<char> = Vec::new();
    let mut k: usize = 0;
    while k < anc.len()
        invariant
            0 <= k <= anc.len(),
            av == anc.deep_view(),
            q@ == ancestor_lines(av, k as int),
        decreases anc.len() - k,
    {
        let ind = indent_exec(k);
        append_all(&mut q, &ind);
        push_str(&mut q, "- ");
        append_all(&mut q, &anc[k]);
        push_str(&mut q, "\n");
        k = k + 1;
    }
    let ind = indent_exec(anc.len());
    append_all(&mut q, &ind);
    push_str(&mut q, "- ");
    append_all(&mut q, current);
    q
}

/// The values of a context stack.
pub open spec fn context_views(c: Seq<(usize, Vec<char>)>) -> Seq<(usize, Seq<char>)> {
    c.map_values(|e: (usize, Vec<char>)| (e.0, e.1@))
}

/// The card of a leaf item or paragraph, if it holds an arrow.
pub fn make_card(
    spans: &Vec<Span>,
    context: &Vec<(usize, Vec<char>)>,
    depth: usize,
    heading: &Option<Vec<char>>,
) -> (r: Option<Card>)
    ensures
        match r {
            Some(c) => make_card_spec(
                span_views(spans@),
                context_views(context@),
                depth,
                match heading {
                    Some(h) => Some(h@),
                    None => None,
                },
            ) == Some(c@),
            None => make_card_spec(
                span_views(spans@),
                context_views(context@),
                depth,
                match heading {
                    Some(h) => Some(h@),
                    None => None,
                },
            ) is None,
        },
{
    if let Some((lhs, rhs)) = split_at_arrow_exec(spans, &chars_of("<->")) {
        let l = render_exec(&lhs);
        let mut raw = trim_chars(&l);
        push_str(&mut raw, " <-> ?");
        let question = build_context_question(context, depth, &raw);
        let r = render_exec(&rhs);
        let answer = trim_chars(&r);
        return Some(make_card_of(CardType::Bidirectional, &question, &answer));
    }
    if let Some((lhs, rhs)) = split_at_arrow_exec(spans, &chars_of("->")) {
        let l = render_exec(&lhs);
        let key = trim_chars(&l);
        let r = render_exec(&rhs);
        let value = trim_chars(&r);
        let question = match heading {
            Some(subject) => {
                if context.len() == 0 {
                    let mut q = slice_of(subject, 0, subject.len());
                    assert(q@ =~= subject@);
                    push_str(&mut q, "\n");
                    append_all(&mut q, &key);
                    push_str(&mut q, " \u{2192}?");
                    q
                } else {
                    let mut raw = slice_of(&key, 0, key.len());
                    assert(raw@ =~= key@);
                    push_str(&mut raw, " -> ?");
                    build_context_question(context, depth, &raw)
                }
            },
            None => {
                let mut raw = slice_of(&key, 0, key.len());
                assert(raw@ =~= key@);
                push_str(&mut raw, " -> ?");
                build_context_question(context, depth, &raw)
            },
        };
        return Some(make_card_of(CardType::Basic, &question, &value));
    }
    None
}

// ── parser state ────────────────────────────────────────────────────────────
/// Inline content being built for the current list item.
pub struct ItemAccum {
    pub spans: Vec<Span>,
    /// Set once a nested list starts: the item is context, not a card.
    pub has_sublist: bool,
    /// List depth when the item started.
    pub depth: usize,
}

/// The value of an item accumulator.
pub struct ItemView {
    pub spans: Seq<SpanView>,
    pub has_sublist: bool,
    pub depth: usize,
}

impl View for ItemAccum {
    type V = ItemView;

    open spec fn view(&self) -> ItemView {
        ItemView { spans: span_views(self.spans@), has_sublist: self.has_sublist, depth: self.depth }
    }
}

impl ItemAccum {
    /// An empty item at a depth.
    pub fn new(depth: usize) -> (r: ItemAccum)
        ensures
            r@ == (ItemView { spans: seq![], has_sublist: false, depth }),
    {
        let r = ItemAccum { spans: Vec::new(), has_sublist: false, depth };
        assert(r@.spans =~= seq![]);
        r
    }
}

/// All mutable state of one parse, with one method per event.
pub struct ParseState {
    pub list_depth: usize,
    /// `(item depth, rendered text)` of the ancestor items.
    pub context_stack: Vec<(usize, Vec<char>)>,
    pub current_item: Option<ItemAccum>,
    /// `(url, alt text)` while inside an image.
    pub current_image: Option<(Vec<char>, Vec<char>)>,
    /// Spans of a top-level paragraph.
    pub paragraph: Option<Vec<Span>>,
    /// Text of the heading being read.
    pub heading_accum: Option<Vec<char>>,
    /// The latest heading: subject of attribute cards.
    pub current_heading: Option<Vec<char>>,
}

/// The value of the parser state.
pub struct StateView {
    pub list_depth: usize,
    pub context: Seq<(usize, Seq<char>)>,
    pub item: Option<ItemView>,
    pub image: Option<(Seq<char>, Seq<char>)>,
    pub paragraph: Option<Seq<SpanView>>,
    pub heading_accum: Option<Seq<char>>,
    pub heading: Option<Seq<char>>,
}

/// The value of an optional character vector.
pub open spec fn opt_chars(o: Option<Vec<char>>) -> Option<Seq<char>> {
    match o {
        Some(v) => Some(v@),
        None => None,
    }
}

impl View for ParseState {
    type V = StateView;

    open spec fn view(&self) -> StateView {
        StateView {
            list_depth: self.list_depth,
            context: context_views(self.context_stack@),
            item: match self.current_item {
                Some(it) => Some(it@),
                None => None,
            },
            image: match self.current_image {
                Some((u, a)) => Some((u@, a@)),
                None => None,
            },
            paragraph: match self.paragraph {
                Some(p) => Some(span_views(p@)),
                None => None,
            },
            heading_accum: opt_chars(self.heading_accum),
            heading: opt_chars(self.current_heading),
        }
    }
}

/// The state before the first event.
pub open spec fn initial_state() -> StateView {
    StateView {
        list_depth: 0,
        context: seq![],
        item: None,
        image: None,
        paragraph: None,
        heading_accum: None,
        heading: None,
    }
}

/// Drops the context entries deeper than `d` from the top of the stack.
pub open spec fn pop_deeper(ctx: Seq<(usize, Seq<char>)>, d: usize) -> Seq<(usize, Seq<char>)>
    decreases ctx.len(),
{
    if ctx.len() > 0 && ctx.last().0 > d {
        pop_deeper(ctx.drop_last(), d)
    } else {
        ctx
    }
}

/// A nested list starts: the current item becomes context.
pub open spec fn on_start_list(s: StateView) -> StateView {
    match s.item {
        Some(it) => StateView {
            list_depth: (s.list_depth + 1) as usize,
            context: s.context.push((it.depth, trim(render(it.spans)))),
            item: Some(ItemView { spans: seq![], has_sublist: true, depth: it.depth }),
            ..s
        },
        None => StateView { list_depth: (s.list_depth + 1) as usize, ..s },
    }
}

/// A list ends: context deeper than the new depth is dropped.
pub open spec fn on_end_list(s: StateView) -> StateView {
    let d: usize = if s.list_depth > 0 {
        (s.list_depth - 1) as usize
    } else {
        0
    };
    StateView { list_depth: d, context: pop_deeper(s.context, d), ..s }
}

/// An item starts.
pub open spec fn on_start_item(s: StateView) -> StateView {
    StateView {
        item: Some(ItemView { spans: seq![], has_sublist: false, depth: s.list_depth }),
        ..s
    }
}

/// An item ends: a leaf item with an arrow gives a card.
pub open spec fn on_end_item(s: StateView) -> (StateView, Option<CardView>) {
    let s2 = StateView { item: None, ..s };
    match s.item {
        None => (s2, None),
        Some(it) => if it.has_sublist {
            (s2, None)
        } else {
            (s2, make_card_spec(it.spans, s.context, it.depth, s.heading))
        },
    }
}

/// An image starts.
pub open spec fn on_start_image(s: StateView, url: Seq<char>) -> StateView {
    StateView { image: Some((url, seq![])), ..s }
}

/// An image ends: it joins the open item or paragraph; its url and alt
/// text are handed back.
pub open spec fn on_end_image(s: StateView) -> (StateView, Option<(Seq<char>, Seq<char>)>) {
    match s.image {
        None => (s, None),
        Some((url, alt)) => {
            let span = SpanView::Image(url, alt);
            let s2 = match s.item {
                Some(it) => StateView {
                    image: None,
                    item: Some(ItemView { spans: it.spans.push(span), ..it }),
                    ..s
                },
                None => match s.paragraph {
                    Some(p) => StateView { image: None, paragraph: Some(p.push(span)), ..s },
                    None => StateView { image: None, ..s },
                },
            };
            (s2, Some((url, alt)))
        },
    }
}

/// A paragraph starts; only outside lists does it collect a card.
pub open spec fn on_start_paragraph(s: StateView) -> StateView {
    if s.list_depth == 0 {
        StateView { paragraph: Some(seq![]), ..s }
    } else {
        s
    }
}

/// A paragraph ends: a top-level paragraph with an arrow gives a card.
pub open spec fn on_end_paragraph(s: StateView) -> (StateView, Option<CardView>) {
    match s.paragraph {
        None => (s, None),
        Some(p) => (StateView { paragraph: None, ..s }, make_card_spec(p, seq![], 0, None)),
    }
}

/// Text goes to the image's alt text, the heading, the item or the
/// paragraph, the first of these that is open.
pub open spec fn on_text(s: StateView, t: Seq<char>) -> StateView {
    match s.image {
        Some((u, a)) => StateView { image: Some((u, a + t)), ..s },
        None => match s.heading_accum {
            Some(h) => StateView { heading_accum: Some(h + t), ..s },
            None => match s.item {
                Some(it) => StateView {
                    item: Some(ItemView { spans: push_text(it.spans, t), ..it }),
                    ..s
                },
                None => match s.paragraph {
                    Some(p) => StateView { paragraph: Some(push_text(p, t)), ..s },
                    None => s,
                },
            },
        },
    }
}

/// Appends a span (or text) to the open item, else to the open paragraph.
pub open spec fn to_break_sink(s: StateView, f: spec_fn(Seq<SpanView>) -> Seq<SpanView>) -> StateView {
    match s.item {
        Some(it) => StateView { item: Some(ItemView { spans: f(it.spans), ..it }), ..s },
        None => match s.paragraph {
            Some(p) => StateView { paragraph: Some(f(p)), ..s },
            None => s,
        },
    }
}

/// Inline code.
pub open spec fn on_code_span(s: StateView, t: Seq<char>) -> StateView {
    to_break_sink(s, |sp: Seq<SpanView>| sp.push(SpanView::Code(t)))
}

/// A soft break becomes a space.
pub open spec fn on_soft_break(s: StateView) -> StateView {
    to_break_sink(s, |sp: Seq<SpanView>| push_text(sp, " "@))
}

/// A hard break becomes a newline.
pub open spec fn on_hard_break(s: StateView) -> StateView {
    to_break_sink(s, |sp: Seq<SpanView>| push_text(sp, "\n"@))
}

/// A heading starts.
pub open spec fn on_start_heading(s: StateView) -> StateView {
    StateView { heading_accum: Some(seq![]), ..s }
}

/// A heading ends: its trimmed text, if any, becomes the current subject.
pub open spec fn on_end_heading(s: StateView) -> StateView {
    match s.heading_accum {
        Some(t) => StateView {
            heading_accum: None,
            heading: if trim(t).len() == 0 {
                None
            } else {
                Some(trim(t))
            },
            ..s
        },
        None => s,
    }
}

impl ParseState {
    /// The state before the first event.
    pub fn new() -> (r: ParseState)
        ensures
            r@ == initial_state(),
    {
        let r = ParseState {
            list_depth: 0,
            context_stack: Vec::new(),
            current_item: None,
            current_image: None,
            paragraph: None,
            heading_accum: None,
            current_heading: None,
        };
        assert(r@.context =~= seq![]);
        r
    }

    pub fn on_start_list(&mut self)
        requires
            old(self).list_depth < usize::MAX,
        ensures
            final(self)@ == on_start_list(old(self)@),
    {
        self.list_depth = self.list_depth + 1;
        match self.current_item.take() {
            Some(mut item) => {
                item.has_sublist = true;
                let r = render_exec(&item.spans);
                let text = trim_chars(&r);
                let ghost cb = self.context_stack@;
                self.context_stack.push((item.depth, text));
                assert(context_views(self.context_stack@) =~= context_views(cb).push(
                    (item.depth, text@),
                ));
                item.spans = Vec::new();
                assert(span_views(item.spans@) =~= seq![]);
                self.current_item = Some(item);
            },
            None => {},
        }
    }

    pub fn on_end_list(&mut self)
        ensures
            final(self)@ == on_end_list(old(self)@),
    {
        if self.list_depth > 0 {
            self.list_depth = self.list_depth - 1;
        }
        loop
            invariant
                self.list_depth == on_end_list(old(self)@).list_depth,
                pop_deeper(old(self)@.context, self.list_depth) == pop_deeper(
                    context_views(self.context_stack@),
                    self.list_depth,
                ),
                self.current_item == old(self).current_item,
                self.current_image == old(self).current_image,
                self.paragraph == old(self).paragraph,
                self.heading_accum == old(self).heading_accum,
                self.current_heading == old(self).current_heading,
            ensures
                self.list_depth == on_end_list(old(self)@).list_depth,
                pop_deeper(old(self)@.context, self.list_depth) == context_views(
                    self.context_stack@,
                ),
                self.current_item == old(self).current_item,
                self.current_image == old(self).current_image,
                self.paragraph == old(self).paragraph,
                self.heading_accum == old(self).heading_accum,
                self.current_heading == old(self).current_heading,
            decreases self.context_stack.len(),
        {
            let n = self.context_stack.len();
            if n > 0 && self.context_stack[n - 1].0 > self.list_depth {
                let ghost before = context_views(self.context_stack@);
                self.context_stack.pop();
                assert(context_views(self.context_stack@) =~= before.drop_last());
            } else {
                break ;
            }
        }
    }

    pub fn on_start_item(&mut self)
        ensures
            final(self)@ == on_start_item(old(self)@),
    {
        self.current_item = Some(ItemAccum::new(self.list_depth));
    }

    /// Ends the current item; a leaf item with an arrow gives its card.
    pub fn on_end_item(&mut self) -> (r: Option<Card>)
        ensures
            (final(self)@, match r {
                Some(c) => Some(c@),
                None => None,
            }) == on_end_item(old(self)@),
    {
        match self.current_item.take() {
            None => None,
            Some(item) => {
                if item.has_sublist {
                    None
                } else {
                    make_card(&item.spans, &self.context_stack, item.depth, &self.current_heading)
                }
            },
        }
    }

    pub fn on_start_image(&mut self, url: Vec<char>)
        ensures
            final(self)@ == on_start_image(old(self)@, url@),
    {
        self.current_image = Some((url, Vec::new()));
        assert(self@.image == Some((url@, Seq::<char>::empty())));
    }

    /// Ends the current image; hands back its url and alt text.
    pub fn on_end_image(&mut self) -> (r: Option<(Vec<char>, Vec<char>)>)
        ensures
            (final(self)@, match r {
                Some((u, a)) => Some((u@, a@)),
                None => None,
            }) == on_end_image(old(self)@),
    {
        match self.current_image.take() {
            None => None,
            Some((url, alt)) => {
                let span = Span::Image { url: copy_chars(&url), alt: copy_chars(&alt) };
                match self.current_item.take() {
                    Some(mut item) => {
                        let ghost b = item.spans@;
                        item.spans.push(span);
                        assert(span_views(item.spans@) =~= span_views(b).push(span@));
                        self.current_item = Some(item);
                    },
                    None => {
                        match self.paragraph.take() {
                            Some(mut para) => {
                                let ghost b = para@;
                                para.push(span);
                                assert(span_views(para@) =~= span_views(b).push(span@));
                                self.paragraph = Some(para);
                            },
                            None => {},
                        }
                    },
                }
                Some((url, alt))
            },
        }
    }

    pub fn on_start_paragraph(&mut self)
        ensures
            final(self)@ == on_start_paragraph(old(self)@),
    {
        if self.list_depth == 0 {
            self.paragraph = Some(Vec::new());
            assert(self@.paragraph == Some(Seq::<SpanView>::empty()));
        }
    }

    /// Ends a paragraph; a top-level paragraph with an arrow gives its card.
    pub fn on_end_paragraph(&mut self) -> (r: Option<Card>)
        ensures
            (final(self)@, match r {
                Some(c) => Some(c@),
                None => None,
            }) == on_end_paragraph(old(self)@),
    {
        match self.paragraph.take() {
            None => None,
            Some(spans) => {
                let empty: Vec<(usize, Vec<char>)> = Vec::new();
                assert(context_views(empty@) =~= seq![]);
                make_card(&spans, &empty, 0, &None)
            },
        }
    }

    pub fn on_text(&mut self, s: &Vec<char>)
        ensures
            final(self)@ == on_text(old(self)@, s@),
    {
        match self.current_image.take() {
            Some((url, mut alt)) => {
                append_all(&mut alt, s);
                self.current_image = Some((url, alt));
                return;
            },
            None => {},
        }
        match self.heading_accum.take() {
            Some(mut h) => {
                append_all(&mut h, s);
                self.heading_accum = Some(h);
                return;
            },
            None => {},
        }
        match self.current_item.take() {
            Some(mut item) => {
                push_text_exec(&mut item.spans, s);
                self.current_item = Some(item);
                return;
            },
            None => {},
        }
        match self.paragraph.take() {
            Some(mut para) => {
                push_text_exec(&mut para, s);
                self.paragraph = Some(para);
            },
            None => {},
        }
    }

    pub fn on_code_span(&mut self, s: &Vec<char>)
        ensures
            final(self)@ == on_code_span(old(self)@, s@),
    {
        let span = Span::Code(copy_chars(s));
        match self.current_item.take() {
            Some(mut item) => {
                let ghost b = item.spans@;
                item.spans.push(span);
                assert(span_views(item.spans@) =~= span_views(b).push(span@));
                self.current_item = Some(item);
            },
            None => {
                match self.paragraph.take() {
                    Some(mut para) => {
                        let ghost b = para@;
                        para.push(span);
                        assert(span_views(para@) =~= span_views(b).push(span@));
                        self.paragraph = Some(para);
                    },
                    None => {},
                }
            },
        }
    }

    /// Appends break text to the open item or paragraph.
    fn push_break(&mut self, t: &Vec<char>)
        ensures
            final(self)@ == to_break_sink(old(self)@, |sp: Seq<SpanView>| push_text(sp, t@)),
    {
        match self.current_item.take() {
            Some(mut item) => {
                push_text_exec(&mut item.spans, t);
                self.current_item = Some(item);
            },
            None => {
                match self.paragraph.take() {
                    Some(mut para) => {
                        push_text_exec(&mut para, t);
                        self.paragraph = Some(para);
                    },
                    None => {},
                }
            },
        }
    }

    pub fn on_soft_break(&mut self)
        ensures
            final(self)@ == on_soft_break(old(self)@),
    {
        let t = chars_of(" ");
        self.push_break(&t);
        assert(final(self)@ == on_soft_break(old(self)@));
    }

    pub fn on_hard_break(&mut self)
        ensures
            final(self)@ == on_hard_break(old(self)@),
    {
        let t = chars_of("\n");
        self.push_break(&t);
        assert(final(self)@ == on_hard_break(old(self)@));
    }

    pub fn on_start_heading(&mut self)
        ensures
            final(self)@ == on_start_heading(old(self)@),
    {
        self.heading_accum = Some(Vec::new());
        assert(self@.heading_accum == Some(Seq::<char>::empty()));
    }

    pub fn on_end_heading(&mut self)
        ensures
            final(self)@ == on_end_heading(old(self)@),
    {
        match self.heading_accum.take() {
            Some(text) => {
                let trimmed = trim_chars(&text);
                if trimmed.len() == 0 {
                    self.current_heading = None;
                } else {
                    self.current_heading = Some(trimmed);
                }
            },
            None => {},
        }
    }
}

} // verus!
