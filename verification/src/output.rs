//! What the commands report: the sync summary, validation and preview text.
use crate::doc_parser::types::{Card, CardType};
use crate::sync::{PreviewResult, ValidationResult};
use crate::text::{append_all, chars_of, dec, dec_chars, lines, lines_exec, push_str, slice_of, string_of};
use vstd::prelude::*;

verus! {

/// The outcome of a sync.
#[derive(Debug, Clone)]
pub struct SyncResult {
    pub files_processed: usize,
    pub cards_synced: usize,
    pub cards_added: usize,
    pub cards_deleted: usize,
    pub cards_unchanged: usize,
    pub deck_name: String,
    pub dry_run: bool,
    pub media_copied: usize,
    pub media_skipped: usize,
    pub media_missing: usize,
}

impl SyncResult {
    /// A result with the given counts and nothing added, deleted or copied.
    pub fn new(files_processed: usize, cards_synced: usize, deck_name: String, dry_run: bool) -> (r: SyncResult)
        ensures
            r.files_processed == files_processed,
            r.cards_synced == cards_synced,
            r.deck_name == deck_name,
            r.dry_run == dry_run,
            r.cards_added == 0 && r.cards_deleted == 0 && r.cards_unchanged == 0,
            r.media_copied == 0 && r.media_skipped == 0 && r.media_missing == 0,
    {
        SyncResult {
            files_processed,
            cards_synced,
            cards_added: 0,
            cards_deleted: 0,
            cards_unchanged: 0,
            deck_name,
            dry_run,
            media_copied: 0,
            media_skipped: 0,
            media_missing: 0,
        }
    }

    /// The summary, as printed after a sync.
    pub fn to_string(&self) -> (r: String)
        ensures
            r@ == sync_summary(*self),
    {
        let mut v = chars_of("Sync Summary:\n  Files processed: ");
        append_all(&mut v, &dec_chars(self.files_processed as u64));
        push_str(&mut v, "\n  Cards synced: ");
        append_all(&mut v, &dec_chars(self.cards_synced as u64));
        push_str(&mut v, "\n  Target deck: ");
        push_str(&mut v, self.deck_name.as_str());
        push_str(&mut v, "\n  Dry run: ");
        push_str(&mut v, if self.dry_run { "yes" } else { "no" });
        if !self.dry_run {
            push_str(&mut v, "\n  Cards added: ");
            append_all(&mut v, &dec_chars(self.cards_added as u64));
            push_str(&mut v, "\n  Cards deleted: ");
            append_all(&mut v, &dec_chars(self.cards_deleted as u64));
            push_str(&mut v, "\n  Cards unchanged: ");
            append_all(&mut v, &dec_chars(self.cards_unchanged as u64));
        }
        if self.media_copied > 0 || self.media_skipped > 0 || self.media_missing > 0 {
            push_str(&mut v, "\n  Media copied: ");
            append_all(&mut v, &dec_chars(self.media_copied as u64));
            push_str(&mut v, "\n  Media skipped: ");
            append_all(&mut v, &dec_chars(self.media_skipped as u64));
            push_str(&mut v, "\n  Media missing: ");
            append_all(&mut v, &dec_chars(self.media_missing as u64));
        }
        string_of(&v)
    }
}

/// The sync summary: counts, deck and mode; the changes when not a dry run;
/// the media counts when any media was seen.
pub open spec fn sync_summary(r: SyncResult) -> Seq<char> {
    "Sync Summary:\n  Files processed: "@ + dec(r.files_processed as nat) + "\n  Cards synced: "@
        + dec(r.cards_synced as nat) + "\n  Target deck: "@ + r.deck_name@ + "\n  Dry run: "@ + (
    if r.dry_run {
        "yes"@
    } else {
        "no"@
    }) + (if !r.dry_run {
        "\n  Cards added: "@ + dec(r.cards_added as nat) + "\n  Cards deleted: "@ + dec(
            r.cards_deleted as nat,
        ) + "\n  Cards unchanged: "@ + dec(r.cards_unchanged as nat)
    } else {
        seq![]
    }) + (if r.media_copied + r.media_skipped + r.media_missing > 0 {
        "\n  Media copied: "@ + dec(r.media_copied as nat) + "\n  Media skipped: "@ + dec(
            r.media_skipped as nat,
        ) + "\n  Media missing: "@ + dec(r.media_missing as nat)
    } else {
        seq![]
    })
}

/// The first line of a text.
pub open spec fn first_of_lines(s: Seq<char>) -> Seq<char> {
    if lines(s).len() > 0 {
        lines(s)[0]
    } else {
        seq![]
    }
}

/// The first line of a text: longer than 60 characters, its first 57
/// characters and `...`; otherwise followed by ` ...` when more lines follow.
pub open spec fn first_line_of(s: Seq<char>) -> Seq<char> {
    let ls = lines(s);
    let line = first_of_lines(s);
    if line.len() > 60 {
        line.take(57) + "..."@
    } else if ls.len() > 1 {
        line + " ..."@
    } else {
        line
    }
}

/// The first line of a text, shortened for a one-line listing: beyond 60
/// characters it is cut to its first 57 characters and `...`.
pub fn first_line(s: &str) -> (r: String)
    ensures
        r@ == first_line_of(s@),
{
    let c = chars_of(s);
    let ls = lines_exec(&c);
    let line = if ls.len() > 0 {
        slice_of(&ls[0], 0, ls[0].len())
    } else {
        Vec::new()
    };
    proof {
        if ls.len() > 0 {
            assert(line@ =~= ls.deep_view()[0]);
        } else {
            assert(line@ =~= seq![]);
        }
    }
    if line.len() > 60 {
        let mut v = slice_of(&line, 0, 57);
        assert(v@ =~= line@.take(57));
        push_str(&mut v, "...");
        string_of(&v)
    } else if ls.len() > 1 {
        let mut v = line;
        push_str(&mut v, " ...");
        string_of(&v)
    } else {
        string_of(&line)
    }
}

/// Printing of command results.
#[derive(Debug, Default)]
pub struct CliOutput;

/// The validation report: a warning when no file was found, else the
/// count of files (and of files skipped for holding no card).
pub open spec fn validation_report(total: usize, with_cards: usize) -> (bool, Seq<char>) {
    if total == 0 {
        (true, "warning: no markdown files found in the current directory"@)
    } else if total - with_cards > 0 {
        (
            false,
            "Validation passed: "@ + dec(with_cards as nat) + " files with cards, "@ + dec(
                (total - with_cards) as nat,
            ) + " skipped"@,
        )
    } else {
        (false, "Validation passed: "@ + dec(total as nat) + " files"@)
    }
}

/// `s` padded on the left with spaces to `w` characters.
pub open spec fn pad_left(s: Seq<char>, w: nat) -> Seq<char>
    decreases w - s.len(),
{
    if s.len() >= w {
        s
    } else {
        pad_left(seq![' '] + s, w)
    }
}

/// The short label of a card type.
pub open spec fn type_label(t: CardType) -> Seq<char> {
    match t {
        CardType::Basic => "basic"@,
        CardType::Bidirectional => "bidi"@,
        CardType::Sequence => "sequence"@,
    }
}

/// A field of a card, or empty text.
pub open spec fn field_or_empty(c: Card, k: int) -> Seq<char> {
    if 0 <= k < c.fields@.len() {
        c.fields@[k]@
    } else {
        seq![]
    }
}

/// The listing line of the `i`-th card (counting from one).
pub open spec fn preview_line(i: nat, c: Card) -> Seq<char> {
    "  "@ + pad_left(dec(i), 3) + ". ["@ + type_label(c.card_type) + "] "@ + first_line_of(
        field_or_empty(c, 0),
    ) + " -> "@ + first_line_of(field_or_empty(c, 1))
}

/// The preview listing: a header, then a blank line and one line per card.
pub open spec fn preview_lines(r: PreviewResult, n: int) -> Seq<Seq<char>>
    decreases n,
{
    if n <= 0 {
        seq![
            "Preview: "@ + dec(r.cards@.len()) + " cards from "@ + dec(r.files_processed as nat)
                + " files -> deck \""@ + r.deck_name@ + "\""@,
        ] + (if r.cards@.len() > 0 {
            seq![seq![]]
        } else {
            seq![]
        })
    } else {
        preview_lines(r, n - 1).push(preview_line(n as nat, r.cards@[n - 1]))
    }
}

fn pad_left_exec(s: Vec<char>, w: usize) -> (r: Vec<char>)
    ensures
        r@ == pad_left(s@, w as nat),
    decreases w - s.len(),
{
    if s.len() >= w {
        s
    } else {
        let mut t: Vec<char> = Vec::new();
        t.push(' ');
        append_all(&mut t, &s);
        pad_left_exec(t, w)
    }
}

impl CliOutput {
    /// The validation report: whether it is a warning, and its text.
    pub fn validation_message(&self, result: &ValidationResult) -> (r: (bool, String))
        requires
            result.files_with_cards <= result.total_files,
        ensures
            (r.0, r.1@) == validation_report(result.total_files, result.files_with_cards),
    {
        if result.total_files == 0 {
            return (true, string_of(&chars_of("warning: no markdown files found in the current directory")));
        }
        let skipped = result.total_files - result.files_with_cards;
        let mut v = chars_of("Validation passed: ");
        if skipped > 0 {
            append_all(&mut v, &dec_chars(result.files_with_cards as u64));
            push_str(&mut v, " files with cards, ");
            append_all(&mut v, &dec_chars(skipped as u64));
            push_str(&mut v, " skipped");
        } else {
            append_all(&mut v, &dec_chars(result.total_files as u64));
            push_str(&mut v, " files");
        }
        (false, string_of(&v))
    }

    /// The preview listing, one string per line.
    pub fn preview_text(&self, result: &PreviewResult) -> (r: Vec<String>)
        ensures
            r.deep_view() == preview_lines(*result, result.cards@.len() as int),
    {
        let mut out: Vec<String> = Vec::new();
        let mut h = chars_of("Preview: ");
        append_all(&mut h, &dec_chars(result.cards.len() as u64));
        push_str(&mut h, " cards from ");
        append_all(&mut h, &dec_chars(result.files_processed as u64));
        push_str(&mut h, " files -> deck \"");
        push_str(&mut h, result.deck_name.as_str());
        push_str(&mut h, "\"");
        out.push(string_of(&h));
        if result.cards.len() > 0 {
            out.push(String::new());
        }
        assert(out.deep_view() =~= preview_lines(*result, 0));
        let mut i: usize = 0;
        while i < result.cards.len()
            invariant
                0 <= i <= result.cards.len(),
                out.deep_view() == preview_lines(*result, i as int),
            decreases result.cards.len() - i,
        {
            let card = &result.cards[i];
            proof {
                reveal_strlit("");
                if card.fields.len() > 0 {
                    assert(field_or_empty(*card, 0) == card.fields@[0]@);
                }
                if card.fields.len() > 1 {
                    assert(field_or_empty(*card, 1) == card.fields@[1]@);
                }
            }
            let mut line = chars_of("  ");
            let num = pad_left_exec(dec_chars((i + 1) as u64), 3);
            append_all(&mut line, &num);
            push_str(&mut line, ". [");
            match card.card_type {
                CardType::Basic => push_str(&mut line, "basic"),
                CardType::Bidirectional => push_str(&mut line, "bidi"),
                CardType::Sequence => push_str(&mut line, "sequence"),
            }
            push_str(&mut line, "] ");
            let front = if card.fields.len() > 0 { first_line(card.fields[0].as_str()) } else { first_line("") };
            let back = if card.fields.len() > 1 { first_line(card.fields[1].as_str()) } else { first_line("") };
            proof {
                reveal_strlit("");
            }
            push_str(&mut line, front.as_str());
            push_str(&mut line, " -> ");
            push_str(&mut line, back.as_str());
            let s = string_of(&line);
            let ghost b = out.deep_view();
            out.push(s);
            assert(out.deep_view() =~= b.push(s@));
            i = i + 1;
        }
        out
    }
}

} // verus!
