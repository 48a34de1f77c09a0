//! Identifiers, cards and decks of an Anki collection.
use vstd::prelude::*;

verus! {

/// A card's database identifier.
#[derive(Debug, Copy, Clone, PartialEq, Eq, Structural, Hash)]
pub struct CardId(pub i64);

/// A note's database identifier; a note gives one or more cards.
#[derive(Debug, Copy, Clone, PartialEq, Eq, Structural, Hash)]
pub struct NoteId(pub i64);

/// The answer given when reviewing a card.
#[derive(Debug, Clone, Copy, PartialEq, Eq, Structural)]
pub enum ReviewRating {
    Again,
    Hard,
    Good,
    Easy,
}

/// One review of a card.
#[derive(Debug, Clone, Copy, PartialEq, Eq, Structural)]
pub struct ReviewEntry {
    pub card_id: CardId,
    pub rating: ReviewRating,
    /// Interval after the review: positive days, negative seconds.
    pub interval: i32,
    /// Ease factor after the review, times 1000.
    pub ease_factor: u32,
}

/// The note type of a card.
#[derive(Debug, Clone, Copy, PartialEq, Eq, Structural)]
pub enum CardType {
    Basic,
    /// A note that gives a forward and a reverse card.
    BasicReversed,
}

/// A card to store: its note type and fields.
#[derive(Debug, Clone, PartialEq, Eq)]
pub struct Card {
    pub card_type: CardType,
    pub fields: Vec<String>,
}

/// One stored card: its id, its note, and the note's type and fields.
#[derive(Debug, Clone, PartialEq, Eq)]
pub struct CardInfo {
    pub id: CardId,
    pub note_id: NoteId,
    pub card_type: CardType,
    pub fields: Vec<String>,
}

/// The value of a stored card.
pub struct CardInfoView {
    pub id: CardId,
    pub note_id: NoteId,
    pub card_type: CardType,
    pub fields: Seq<Seq<char>>,
}

impl View for CardInfo {
    type V = CardInfoView;

    open spec fn view(&self) -> CardInfoView {
        CardInfoView {
            id: self.id,
            note_id: self.note_id,
            card_type: self.card_type,
            fields: self.fields.deep_view(),
        }
    }
}

/// The values of a sequence of stored cards.
pub open spec fn info_views(s: Seq<CardInfo>) -> Seq<CardInfoView> {
    s.map_values(|c: CardInfo| c@)
}

/// A deck, named by its full path (`Parent::Child`).
#[derive(Debug, Clone, PartialEq, Eq)]
pub struct DeckConfig {
    pub name: String,
}

/// A copy of a list of strings.
pub fn copy_strings(v: &Vec<String>) -> (r: Vec<String>)
    ensures
        r.deep_view() == v.deep_view(),
{
    let mut r: Vec<String> = Vec::new();
    let mut i: usize = 0;
    while i < v.len()
        invariant
            0 <= i <= v.len(),
            r.deep_view() == v.deep_view().take(i as int),
        decreases v.len() - i,
    {
        let ghost b = r.deep_view();
        r.push(v[i].clone());
        assert(r.deep_view() =~= b.push(v[i as int]@));
        i = i + 1;
        assert(v.deep_view().take(i as int) =~= v.deep_view().take(i - 1).push(v[i - 1]@));
    }
    assert(v.deep_view().take(v.len() as int) =~= v.deep_view());
    r
}

/// A copy of a stored card.
pub fn copy_info(c: &CardInfo) -> (r: CardInfo)
    ensures
        r@ == c@,
{
    CardInfo { id: c.id, note_id: c.note_id, card_type: c.card_type, fields: copy_strings(&c.fields) }
}

} // verus!
