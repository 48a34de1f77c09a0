//! The Markdown parser: pre-processing passes, then the CommonMark event
//! stream through the inline state machine.
use crate::doc_parser::block::{block_extract, extract_block_cards};
use crate::doc_parser::error::ParseError;
use crate::doc_parser::extraction::residual;
use crate::doc_parser::inline::{
    initial_state, on_code_span, on_end_heading, on_end_image, on_end_item, on_end_list,
    on_end_paragraph, on_hard_break, on_soft_break, on_start_heading, on_start_image,
    on_start_item, on_start_list, on_start_paragraph, on_text, ParseState, StateView,
};
use crate::doc_parser::pipe_table::{extract_pipe_table_cards, pipe_extract};
use crate::doc_parser::sequence::{extract_sequence_cards, seq_extract};
use crate::doc_parser::template::{expand_templates, template_expand};
use crate::doc_parser::types::{
    extend_cards, media_error, media_view, media_views, views, warning_views, Card, CardView,
    MediaReference, ParsedDocument, Warning,
};
use crate::text::{
    split_exec, chars_eq,
    chars_of, join_nl, lines, split_char, starts_with, starts_with_exec, string_of, trim,
    trim_chars,
};
use pulldown_cmark::{Event as E, Options, Parser, Tag as T};
use vstd::prelude::*;

verus! {

/// The tags of the Markdown events that the parser reads.
pub enum MdTag {
    List,
    Heading,
    Item,
    Image(String),
    Paragraph,
    Other,
}

/// A Markdown event as the parser reads it.
pub enum MdEvent {
    Start(MdTag),
    End(MdTag),
    Text(String),
    Code(String),
    SoftBreak,
    HardBreak,
    Other,
}

/// The value of a tag.
pub enum TagView {
    List,
    Heading,
    Item,
    Image(Seq<char>),
    Paragraph,
    Other,
}

/// The value of an event.
pub enum EventView {
    Start(TagView),
    End(TagView),
    Text(Seq<char>),
    Code(Seq<char>),
    SoftBreak,
    HardBreak,
    Other,
}

pub open spec fn tag_view(t: MdTag) -> TagView {
    match t {
        MdTag::List => TagView::List,
        MdTag::Heading => TagView::Heading,
        MdTag::Item => TagView::Item,
        MdTag::Image(u) => TagView::Image(u@),
        MdTag::Paragraph => TagView::Paragraph,
        MdTag::Other => TagView::Other,
    }
}

impl View for MdEvent {
    type V = EventView;

    open spec fn view(&self) -> EventView {
        match self {
            MdEvent::Start(t) => EventView::Start(tag_view(*t)),
            MdEvent::End(t) => EventView::End(tag_view(*t)),
            MdEvent::Text(s) => EventView::Text(s@),
            MdEvent::Code(s) => EventView::Code(s@),
            MdEvent::SoftBreak => EventView::SoftBreak,
            MdEvent::HardBreak => EventView::HardBreak,
            MdEvent::Other => EventView::Other,
        }
    }
}

/// The values of a sequence of events.
pub open spec fn event_views(s: Seq<MdEvent>) -> Seq<EventView> {
    s.map_values(|e: MdEvent| e@)
}

/// The events that pulldown-cmark (no extensions) produces for a text,
/// with the tags and events the parser does not read collapsed to `Other`.
pub uninterp spec fn cmark_events(text: Seq<char>) -> Seq<EventView>;

/// Runs `pulldown_cmark::Parser::new_ext(text, Options::empty())` and
/// converts each event; the stream depends on the text alone.
#[verifier::external_body]
fn markdown_events(text: &str) -> (r: Vec<MdEvent>)
    ensures
        event_views(r@) == cmark_events(text@),
{
    let tag = |t: T| match t {
        T::List(_) => MdTag::List, T::Heading(..) => MdTag::Heading, T::Item => MdTag::Item,
        T::Image(_, u, _) => MdTag::Image(u.to_string()), T::Paragraph => MdTag::Paragraph,
        _ => MdTag::Other,
    };
    Parser::new_ext(text, Options::empty()).map(|e| match e {
        E::Start(t) => MdEvent::Start(tag(t)), E::End(t) => MdEvent::End(tag(t)),
        E::Text(s) => MdEvent::Text(s.to_string()), E::Code(s) => MdEvent::Code(s.to_string()),
        E::SoftBreak => MdEvent::SoftBreak, E::HardBreak => MdEvent::HardBreak,
        _ => MdEvent::Other,
    }).collect()
}

/// A piece between separators that names a component: not empty, not `.`.
pub open spec fn names_component() -> spec_fn(Seq<char>) -> bool {
    |s: Seq<char>| s.len() > 0 && s != "."@
}

/// The non-empty components of a `/`-separated path other than `.`.
pub open spec fn path_segments(p: Seq<char>) -> Seq<Seq<char>> {
    split_char(p, '/').filter(names_component())
}

/// `Path::file_name` on Unix: the last component, unless there is none or
/// it is `..`.
pub open spec fn unix_file_name(p: Seq<char>) -> Option<Seq<char>> {
    let segs = path_segments(p);
    if segs.len() == 0 || segs.last() == ".."@ {
        None
    } else {
        Some(segs.last())
    }
}

/// The file name of a path, as `Path::file_name` gives it on Unix: the
/// last component other than `.`, and none for `..`, `/` or an empty path.
pub(crate) fn file_name_of(p: &str) -> (r: Option<String>)
    ensures
        match r {
            Some(n) => unix_file_name(p@) == Some(n@),
            None => unix_file_name(p@) is None,
        },
{
    let parts = split_exec(&chars_of(p), '/');
    let ghost pv = parts.deep_view();
    let ghost f = names_component();
    let dot = chars_of(".");
    let mut last: Option<usize> = None;
    let mut i: usize = 0;
    while i < parts.len()
        invariant
            0 <= i <= parts.len(),
            pv == parts.deep_view(),
            f == names_component(),
            dot@ == "."@,
            match last {
                None => pv.take(i as int).filter(f).len() == 0,
                Some(k) => k < i && pv.take(i as int).filter(f).len() > 0 && pv.take(i as int).filter(f).last()
                    == pv[k as int],
            },
        decreases parts.len() - i,
    {
        proof {
            reveal(Seq::filter);
            assert(pv.take(i + 1).drop_last() =~= pv.take(i as int));
            assert(pv.take(i + 1).last() == pv[i as int]);
            assert(pv[i as int] == parts[i as int]@);
        }
        if parts[i].len() > 0 && !chars_eq(&parts[i], &dot) {
            last = Some(i);
        }
        i = i + 1;
    }
    assert(pv.take(parts.len() as int) =~= pv);
    match last {
        None => None,
        Some(k) => {
            assert(pv[k as int] == parts[k as int]@);
            if chars_eq(&parts[k], &chars_of("..")) {
                None
            } else {
                Some(string_of(&parts[k]))
            }
        },
    }
}

/// What one event does to the parser state: the new state, a finished card,
/// a finished image `(url, alt)`.
pub open spec fn on_event(s: StateView, e: EventView) -> (
    StateView,
    Option<CardView>,
    Option<(Seq<char>, Seq<char>)>,
) {
    match e {
        EventView::Start(TagView::List) => (on_start_list(s), None, None),
        EventView::End(TagView::List) => (on_end_list(s), None, None),
        EventView::Start(TagView::Heading) => (on_start_heading(s), None, None),
        EventView::End(TagView::Heading) => (on_end_heading(s), None, None),
        EventView::Start(TagView::Item) => (on_start_item(s), None, None),
        EventView::End(TagView::Item) => (on_end_item(s).0, on_end_item(s).1, None),
        EventView::Start(TagView::Image(u)) => (on_start_image(s, u), None, None),
        EventView::End(TagView::Image(_)) => (on_end_image(s).0, None, on_end_image(s).1),
        EventView::Start(TagView::Paragraph) => (on_start_paragraph(s), None, None),
        EventView::End(TagView::Paragraph) => (on_end_paragraph(s).0, on_end_paragraph(s).1, None),
        EventView::Text(t) => (on_text(s, t), None, None),
        EventView::Code(t) => (on_code_span(s, t), None, None),
        EventView::SoftBreak => (on_soft_break(s), None, None),
        EventView::HardBreak => (on_hard_break(s), None, None),
        _ => (s, None, None),
    }
}

/// A url on the web, which is not a media file of the document.
pub open spec fn is_remote(url: Seq<char>) -> bool {
    starts_with(url, "http://"@) || starts_with(url, "https://"@)
}

/// The file name under which an image is stored.
pub open spec fn target_name_of(url: Seq<char>) -> Seq<char> {
    match unix_file_name(url) {
        Some(n) => n,
        None => url,
    }
}

/// A media list already holds a reference to `url`.
pub open spec fn has_source(media: Seq<(Seq<char>, Seq<char>, Option<Seq<char>>)>, url: Seq<char>) -> bool {
    exists|k: int| 0 <= k < media.len() && (#[trigger] media[k]).0 == url
}

/// The state of a run over the event stream.
pub struct RunView {
    pub state: StateView,
    pub cards: Seq<CardView>,
    pub media: Seq<(Seq<char>, Seq<char>, Option<Seq<char>>)>,
}

/// One event of the run; a refused image ends it with `(name, message)`.
pub open spec fn run_step(run: RunView, e: EventView) -> Result<RunView, (Seq<char>, Seq<char>)> {
    let (s2, card, img) = on_event(run.state, e);
    let cards = match card {
        Some(c) => run.cards.push(c),
        None => run.cards,
    };
    match img {
        None => Ok(RunView { state: s2, cards, media: run.media }),
        Some((url, alt)) => if is_remote(url) {
            Ok(RunView { state: s2, cards, media: run.media })
        } else {
            let target = target_name_of(url);
            match media_error(url, target) {
                Some(msg) => Err((target, msg)),
                None => {
                    let m = (
                        url,
                        target,
                        if alt.len() == 0 {
                            None
                        } else {
                            Some(alt)
                        },
                    );
                    Ok(
                        RunView {
                            state: s2,
                            cards,
                            media: if has_source(run.media, url) {
                                run.media
                            } else {
                                run.media.push(m)
                            },
                        },
                    )
                },
            }
        },
    }
}

/// The run over the first `n` events.
pub open spec fn run_events(events: Seq<EventView>, n: int) -> Result<
    RunView,
    (Seq<char>, Seq<char>),
>
    decreases n,
{
    if n <= 0 {
        Ok(RunView { state: initial_state(), cards: seq![], media: seq![] })
    } else {
        match run_events(events, n - 1) {
            Err(e) => Err(e),
            Ok(run) => run_step(run, events[n - 1]),
        }
    }
}

/// What parsing a document gives.
pub enum ParseOutcome {
    /// A template could not be expanded.
    TemplateErr(Seq<char>),
    /// An image names a file that cannot be stored: name and message.
    MediaErr(Seq<char>, Seq<char>),
    /// No card anywhere.
    Empty,
    /// Cards, media references and warnings.
    Doc(Seq<CardView>, Seq<(Seq<char>, Seq<char>, Option<Seq<char>>)>, Seq<(usize, Seq<char>)>),
}

/// The text that reaches the Markdown parser after the line passes.
pub open spec fn inline_input(r3: Seq<char>) -> Seq<char> {
    if trim(r3).len() == 0 {
        seq![]
    } else {
        r3
    }
}

/// Parsing a document: templates are expanded, then pipe tables, sequences
/// and block cards are taken out, and the rest is read as Markdown; cards
/// come in that order.
pub open spec fn parse_outcome(md: Seq<char>) -> ParseOutcome {
    match template_expand(lines(md)) {
        Err(m) => ParseOutcome::TemplateErr(m),
        Ok((tl, tw)) => {
            let t = join_nl(tl);
            let p = pipe_extract(lines(t));
            let r1 = residual(lines(t), p.1);
            let q = seq_extract(lines(r1));
            let r2 = residual(lines(r1), q.1);
            let b = block_extract(lines(r2));
            let r3 = residual(lines(r2), b.2);
            let events = cmark_events(inline_input(r3));
            match run_events(events, events.len() as int) {
                Err((name, msg)) => ParseOutcome::MediaErr(name, msg),
                Ok(run) => {
                    let cards = p.0 + q.0 + b.0 + run.cards;
                    if cards.len() == 0 {
                        ParseOutcome::Empty
                    } else {
                        ParseOutcome::Doc(cards, run.media, tw + b.1)
                    }
                },
            }
        },
    }
}

/// The result of `parse` agrees with the outcome.
pub open spec fn parse_result_matches(r: Result<ParsedDocument, ParseError>, o: ParseOutcome) -> bool {
    match o {
        ParseOutcome::TemplateErr(m) => r matches Err(ParseError::TemplateError(s)) && s@ == m,
        ParseOutcome::MediaErr(n, m) => r matches Err(
            ParseError::InvalidMediaName { line, name, message },
        ) && line == 0 && name@ == n && message@ == m,
        ParseOutcome::Empty => r matches Err(ParseError::EmptyDocument),
        ParseOutcome::Doc(c, me, w) => r matches Ok(d) && views(d.cards@) == c && media_views(
            d.media@,
        ) == me && warning_views(d.warnings@) == w && d.source_path is None,
    }
}

/// An error of the run stays an error for longer runs.
pub proof fn lemma_run_err(events: Seq<EventView>, n: int, e: (Seq<char>, Seq<char>))
    requires
        0 <= n <= events.len(),
        run_events(events, n) == Err::<RunView, (Seq<char>, Seq<char>)>(e),
    ensures
        run_events(events, events.len() as int) == Err::<RunView, (Seq<char>, Seq<char>)>(e),
    decreases events.len() - n,
{
    if n < events.len() {
        lemma_run_err(events, n + 1, e);
    }
}

/// Media references of a document: each source path listed once, none on
/// the web, each stored under the file name of its path, which Anki accepts.
pub open spec fn media_well_formed(media: Seq<(Seq<char>, Seq<char>, Option<Seq<char>>)>) -> bool {
    &&& forall|i: int, j: int| 0 <= i < j < media.len() ==> (#[trigger] media[i]).0 != (#[trigger] media[j]).0
    &&& forall|i: int|
        0 <= i < media.len() ==> !is_remote((#[trigger] media[i]).0) && media[i].1 == target_name_of(media[i].0)
            && media_error(media[i].0, media[i].1) is None
}

proof fn lemma_run_media(events: Seq<EventView>, n: int)
    requires
        0 <= n <= events.len(),
    ensures
        run_events(events, n) matches Ok(run) ==> media_well_formed(run.media),
    decreases n,
{
    if n > 0 {
        lemma_run_media(events, n - 1);
        match run_events(events, n - 1) {
            Ok(run) => {
                let r2 = run_step(run, events[n - 1]);
                if r2 is Ok {
                    let m2 = r2->Ok_0.media;
                    if m2.len() > run.media.len() {
                        let url = m2[run.media.len() as int].0;
                        assert(!has_source(run.media, url));
                        assert forall|i: int, j: int| 0 <= i < j < m2.len() implies (#[trigger] m2[i]).0
                            != (#[trigger] m2[j]).0 by {
                            if j == run.media.len() {
                                assert(m2[i] == run.media[i]);
                                if run.media[i].0 == url {
                                    assert(has_source(run.media, url));
                                }
                            } else {
                                assert(m2[i] == run.media[i]);
                                assert(m2[j] == run.media[j]);
                            }
                        }
                        assert forall|i: int| 0 <= i < m2.len() implies !is_remote((#[trigger] m2[i]).0)
                            && m2[i].1 == target_name_of(m2[i].0) && media_error(m2[i].0, m2[i].1) is None by {
                            if i < run.media.len() {
                                assert(m2[i] == run.media[i]);
                            }
                        }
                    }
                }
            },
            Err(_) => {},
        }
    }
}

/// A parsed document lists each image file once: never a web URL, each
/// under its file name, each name one that Anki accepts.
pub proof fn parsed_media_is_local_and_distinct(md: Seq<char>)
    ensures
        parse_outcome(md) matches ParseOutcome::Doc(_, me, _) ==> media_well_formed(me),
{
    match template_expand(lines(md)) {
        Err(_) => {},
        Ok((tl, tw)) => {
            let t = join_nl(tl);
            let p = pipe_extract(lines(t));
            let r1 = residual(lines(t), p.1);
            let q = seq_extract(lines(r1));
            let r2 = residual(lines(r1), q.1);
            let b = block_extract(lines(r2));
            let r3 = residual(lines(r2), b.2);
            let events = cmark_events(inline_input(r3));
            lemma_run_media(events, events.len() as int);
        },
    }
}

/// Whether a media list already holds a reference to `url`.
fn has_source_exec(media: &Vec<MediaReference>, url: &Vec<char>) -> (r: bool)
    ensures
        r == has_source(media_views(media@), url@),
{
    let ghost mv = media_views(media@);
    let mut k: usize = 0;
    while k < media.len()
        invariant
            0 <= k <= media.len(),
            mv == media_views(media@),
            forall|j: int| 0 <= j < k ==> (#[trigger] mv[j]).0 != url@,
        decreases media.len() - k,
    {
        let src = chars_of(media[k].source_path.as_str());
        if crate::text::chars_eq(&src, url) {
            assert(mv[k as int].0 == url@);
            return true;
        }
        k = k + 1;
    }
    false
}

/// A copy of a warning.
fn copy_warning(w: &Warning) -> (r: Warning)
    ensures
        r@ == w@,
{
    Warning { line: w.line, message: w.message.clone() }
}

/// Runs the state machine over the events; cards and media references, or
/// the first refused image.
fn run_inline(events: &Vec<MdEvent>) -> (r: Result<(Vec<Card>, Vec<MediaReference>), ParseError>)
    ensures
        match run_events(event_views(events@), events.len() as int) {
            Err((n, m)) => r matches Err(ParseError::InvalidMediaName { line, name, message })
                && line == 0 && name@ == n && message@ == m,
            Ok(run) => r matches Ok((c, me)) && views(c@) == run.cards && media_views(me@)
                == run.media,
        },
{
    let ghost ev = event_views(events@);
    let mut state = ParseState::new();
    let mut cards: Vec<Card> = Vec::new();
    let mut media: Vec<MediaReference> = Vec::new();
    assert(views(cards@) =~= seq![]);
    assert(media_views(media@) =~= seq![]);
    let mut i: usize = 0;
    while i < events.len()
        invariant
            0 <= i <= events.len(),
            ev == event_views(events@),
            state.list_depth <= i,
            run_events(ev, i as int) == Ok::<RunView, (Seq<char>, Seq<char>)>(
                RunView { state: state@, cards: views(cards@), media: media_views(media@) },
            ),
        decreases events.len() - i,
    {
        let ghost run0 = RunView { state: state@, cards: views(cards@), media: media_views(media@) };
        assert(ev[i as int] == events[i as int]@);
        let mut card: Option<Card> = None;
        match &events[i] {
            MdEvent::Start(MdTag::List) => state.on_start_list(),
            MdEvent::End(MdTag::List) => state.on_end_list(),
            MdEvent::Start(MdTag::Heading) => state.on_start_heading(),
            MdEvent::End(MdTag::Heading) => state.on_end_heading(),
            MdEvent::Start(MdTag::Item) => state.on_start_item(),
            MdEvent::End(MdTag::Item) => {
                card = state.on_end_item();
            },
            MdEvent::Start(MdTag::Image(u)) => state.on_start_image(chars_of(u.as_str())),
            MdEvent::End(MdTag::Image(_)) => {
                match state.on_end_image() {
                    None => {},
                    Some((url, alt)) => {
                        let remote = starts_with_exec(&url, &chars_of("http://"))
                            || starts_with_exec(&url, &chars_of("https://"));
                        if !remote {
                            let url_s = string_of(&url);
                            let target = match file_name_of(url_s.as_str()) {
                                Some(n) => n,
                                None => string_of(&url),
                            };
                            let alt_text = if alt.len() == 0 {
                                None
                            } else {
                                Some(string_of(&alt))
                            };
                            let ghost tv = target@;
                            match MediaReference::new(url_s, target, alt_text, 0) {
                                Err(e) => {
                                    assert(run_step(run0, ev[i as int]) == Err::<
                                        RunView,
                                        (Seq<char>, Seq<char>),
                                    >((tv, media_error(url@, tv)->0)));
                                    proof {
                                        lemma_run_err(ev, i + 1, (tv, media_error(url@, tv)->0));
                                    }
                                    return Err(e);
                                },
                                Ok(m) => {
                                    if !has_source_exec(&media, &url) {
                                        let ghost mb = media@;
                                        media.push(m);
                                        assert(media_views(media@) =~= media_views(mb).push(
                                            media_view(m),
                                        ));
                                    }
                                },
                            }
                        }
                    },
                }
            },
            MdEvent::Start(MdTag::Paragraph) => state.on_start_paragraph(),
            MdEvent::End(MdTag::Paragraph) => {
                card = state.on_end_paragraph();
            },
            MdEvent::Text(t) => {
                let v = chars_of(t.as_str());
                state.on_text(&v);
            },
            MdEvent::Code(t) => {
                let v = chars_of(t.as_str());
                state.on_code_span(&v);
            },
            MdEvent::SoftBreak => state.on_soft_break(),
            MdEvent::HardBreak => state.on_hard_break(),
            _ => {},
        }
        match card {
            Some(c) => {
                let ghost cb = cards@;
                cards.push(c);
                assert(views(cards@) =~= views(cb).push(c@));
            },
            None => {},
        }
        assert(run_step(run0, ev[i as int]) == Ok::<RunView, (Seq<char>, Seq<char>)>(
            RunView { state: state@, cards: views(cards@), media: media_views(media@) },
        ));
        i = i + 1;
    }
    Ok((cards, media))
}

/// A parser of documents into cards.
pub trait DocumentParser {
    /// Parses a Markdown text.
    fn parse(&self, markdown: &str) -> Result<ParsedDocument, ParseError>;
}

/// The parser of `->` / `<->` cards, sequences, block cards, pipe tables and
/// templates in Markdown.
pub struct MarkdownParser;

impl MarkdownParser {
    /// A parser.
    pub fn new() -> (r: MarkdownParser) {
        MarkdownParser
    }
}

impl Default for MarkdownParser {
    fn default() -> (r: MarkdownParser) {
        MarkdownParser
    }
}

impl DocumentParser for MarkdownParser {
    fn parse(&self, markdown: &str) -> (r: Result<ParsedDocument, ParseError>)
        ensures
            parse_result_matches(r, parse_outcome(markdown@)),
    {
        let md = chars_of(markdown);
        let (after_templates, template_warnings) = match expand_templates(&md) {
            Ok(x) => x,
            Err(e) => {
                return Err(e);
            },
        };
        let pipe = extract_pipe_table_cards(&after_templates);
        let sequence = extract_sequence_cards(&pipe.residual);
        let block = extract_block_cards(&sequence.residual);
        let trimmed = trim_chars(&block.residual);
        let input = if trimmed.len() == 0 {
            String::new()
        } else {
            string_of(&block.residual)
        };
        assert(input@ == inline_input(block.residual@));
        let events = markdown_events(input.as_str());
        let (inline_cards, media) = match run_inline(&events) {
            Ok(x) => x,
            Err(e) => {
                return Err(e);
            },
        };
        let mut cards: Vec<Card> = Vec::new();
        extend_cards(&mut cards, &pipe.cards);
        extend_cards(&mut cards, &sequence.cards);
        extend_cards(&mut cards, &block.cards);
        extend_cards(&mut cards, &inline_cards);
        assert(views(cards@) =~= views(pipe.cards@) + views(sequence.cards@) + views(block.cards@)
            + views(inline_cards@));
        let mut warnings = template_warnings;
        let ghost wb = warning_views(warnings@);
        let mut k: usize = 0;
        while k < block.warnings.len()
            invariant
                0 <= k <= block.warnings.len(),
                warning_views(warnings@) == wb + warning_views(block.warnings@).take(k as int),
            decreases block.warnings.len() - k,
        {
            let w = copy_warning(&block.warnings[k]);
            let ghost b = warnings@;
            warnings.push(w);
            assert(warning_views(warnings@) =~= warning_views(b).push(w@));
            k = k + 1;
            assert(warning_views(warnings@) =~= wb + warning_views(block.warnings@).take(k as int));
        }
        assert(warning_views(block.warnings@).take(block.warnings.len() as int) =~= warning_views(
            block.warnings@,
        ));
        if cards.len() == 0 {
            Err(ParseError::EmptyDocument)
        } else {
            Ok(ParsedDocument { cards, media, source_path: None, warnings })
        }
    }
}

} // verus!
