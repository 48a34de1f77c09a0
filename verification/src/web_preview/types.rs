//! The cards and page data of a preview.
use vstd::prelude::*;

verus! {

/// Card type for preview display.
#[derive(Debug, Clone, Copy, PartialEq, Eq, Structural)]
pub enum CardType {
    Basic,
    Bidirectional,
    Sequence,
}

/// The label of a card type.
pub open spec fn label_of(t: CardType) -> Seq<char> {
    match t {
        CardType::Basic => "Basic"@,
        CardType::Bidirectional => "Bidirectional"@,
        CardType::Sequence => "Sequence"@,
    }
}

/// The CSS class of a card type.
pub open spec fn css_class_of(t: CardType) -> Seq<char> {
    match t {
        CardType::Basic => "basic"@,
        CardType::Bidirectional => "bidi"@,
        CardType::Sequence => "sequence"@,
    }
}

impl CardType {
    /// The label shown in the type badge.
    pub fn label(&self) -> (r: &'static str)
        ensures
            r@ == label_of(*self),
    {
        match self {
            CardType::Basic => "Basic",
            CardType::Bidirectional => "Bidirectional",
            CardType::Sequence => "Sequence",
        }
    }

    /// The CSS class of the type badge.
    pub fn css_class(&self) -> (r: &'static str)
        ensures
            r@ == css_class_of(*self),
    {
        match self {
            CardType::Basic => "basic",
            CardType::Bidirectional => "bidi",
            CardType::Sequence => "sequence",
        }
    }
}

/// A card to display.
#[derive(Debug, Clone)]
pub struct PreviewCard {
    /// Raw text of the front (rendered as Markdown).
    pub front: String,
    /// Raw text of the back (rendered as Markdown).
    pub back: String,
    pub card_type: CardType,
    /// Source file, for grouping.
    pub source_file: Option<String>,
}

/// The data of a preview page.
#[derive(Debug, Clone)]
pub struct PreviewData {
    pub deck_name: String,
    pub cards: Vec<PreviewCard>,
    /// Number of Markdown files scanned.
    pub files_processed: usize,
    /// Warnings and per-file parse errors.
    pub errors: Vec<String>,
}

} // verus!
