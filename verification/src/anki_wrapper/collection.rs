//! The collection interface: what every collection offers, stated over
//! the cards of its decks.
use crate::anki_wrapper::decks::without_note;
use crate::anki_wrapper::error::{says_not_found, AnkiWrapperError};
use crate::anki_wrapper::types::{info_views, Card, CardId, CardInfo, CardInfoView, CardType, DeckConfig, NoteId, ReviewEntry, ReviewRating};

use vstd::prelude::*;

verus! {

/// The cards of a deck before an operation (none if it did not exist).
pub open spec fn deck_or_empty(m: Map<Seq<char>, Seq<CardInfoView>>, name: Seq<char>) -> Seq<
    CardInfoView,
> {
    if m.contains_key(name) {
        m[name]
    } else {
        seq![]
    }
}

/// The decks with `name` created if it was missing.
pub open spec fn ensured(m: Map<Seq<char>, Seq<CardInfoView>>, name: Seq<char>) -> Map<
    Seq<char>,
    Seq<CardInfoView>,
> {
    m.insert(name, deck_or_empty(m, name))
}

/// Ensuring a deck that is already there changes nothing: a second
/// `ensure_deck` of the same deck leaves every deck, and its cards, as the
/// first one left them.
pub proof fn ensuring_a_deck_again_changes_nothing(m: Map<Seq<char>, Seq<CardInfoView>>, name: Seq<char>)
    ensures
        ensured(ensured(m, name), name) == ensured(m, name),
        m.contains_key(name) ==> ensured(m, name) == m,
{
    assert(ensured(ensured(m, name), name) =~= ensured(m, name));
    if m.contains_key(name) {
        assert(ensured(m, name) =~= m);
    }
}

/// Whether `s` holds a card of the note.
pub open spec fn has_note(s: Seq<CardInfoView>, note: NoteId) -> bool {
    exists|i: int| 0 <= i < s.len() && (#[trigger] s[i]).note_id == note
}

/// The first card of each note among the first `n` cards, in order.
pub open spec fn first_per_note(s: Seq<CardInfoView>, n: int) -> Seq<CardInfoView>
    decreases n,
{
    if n <= 0 {
        seq![]
    } else {
        let d = first_per_note(s, n - 1);
        if has_note(d, s[n - 1].note_id) {
            d
        } else {
            d.push(s[n - 1])
        }
    }
}

/// One entry per note: the first card of each note, in order.
pub open spec fn notes_of(s: Seq<CardInfoView>) -> Seq<CardInfoView> {
    first_per_note(s, s.len() as int)
}

/// How many cards a note of this type gives.
pub open spec fn cards_per_note(t: CardType) -> int {
    match t {
        CardType::Basic => 1,
        CardType::BasicReversed => 2,
    }
}

/// `new` is `old` with one note of the card's type and fields added to deck
/// `name` (created if missing), under a note id no card of that deck had;
/// other decks are unchanged.
pub open spec fn note_added(
    old: Map<Seq<char>, Seq<CardInfoView>>,
    new: Map<Seq<char>, Seq<CardInfoView>>,
    name: Seq<char>,
    t: CardType,
    fields: Seq<Seq<char>>,
) -> bool {
    let before = deck_or_empty(old, name);
    &&& new.dom() == old.dom().insert(name)
    &&& forall|k: Seq<char>| #[trigger] old.contains_key(k) && k != name ==> new[k] == old[k]
    &&& new[name].len() == before.len() + cards_per_note(t)
    &&& new[name].subrange(0, before.len() as int) == before
    &&& forall|i: int|
        before.len() <= i < new[name].len() ==> (#[trigger] new[name][i]).card_type == t
            && new[name][i].fields == fields && new[name][i].note_id == new[name][before.len() as int].note_id
    &&& forall|i: int| 0 <= i < before.len() ==> (#[trigger] before[i]).note_id != new[name][before.len() as int].note_id
}

/// A collection of decks, notes, cards and reviews.
pub trait AnkiCollection {
    /// The cards of each deck.
    spec fn deck_model(&self) -> Map<Seq<char>, Seq<CardInfoView>>;

    /// The collection's own consistency.
    spec fn well_formed(&self) -> bool;

    /// Adds a note (one card, or two for a reversed note) to a deck, creating
    /// the deck if needed.
    fn add_card(&mut self, deck: &DeckConfig, card: &Card) -> (r: Result<(), AnkiWrapperError>)
        requires
            old(self).well_formed(),
        ensures
            final(self).well_formed(),
            r is Ok ==> note_added(
                old(self).deck_model(),
                final(self).deck_model(),
                deck.name@,
                card.card_type,
                card.fields.deep_view(),
            ),
    ;

    /// Gives the note of a card new content.
    fn update_card(&mut self, card_id: CardId, card: &Card) -> (r: Result<(), AnkiWrapperError>)
        requires
            old(self).well_formed(),
        ensures
            final(self).well_formed(),
    ;

    /// Deletes a note and all its cards.
    fn delete_note(&mut self, note_id: NoteId) -> (r: Result<(), AnkiWrapperError>)
        requires
            old(self).well_formed(),
        ensures
            final(self).well_formed(),
            r is Ok ==> final(self).deck_model() == without_note(old(self).deck_model(), note_id),
    ;

    /// One entry per note of a deck.
    fn get_cards_in_deck(&mut self, deck: &DeckConfig) -> (r: Result<Vec<CardInfo>, AnkiWrapperError>)
        requires
            old(self).well_formed(),
        ensures
            final(self).well_formed(),
            final(self).deck_model() == old(self).deck_model(),
            r matches Ok(v) ==> old(self).deck_model().contains_key(deck.name@) && info_views(v@)
                == notes_of(old(self).deck_model()[deck.name@]),
            r matches Err(e) && says_not_found(e) ==> !old(self).deck_model().contains_key(deck.name@),
    ;

    /// Removes all cards of a deck.
    fn clear_deck(&mut self, deck: &DeckConfig) -> (r: Result<(), AnkiWrapperError>)
        requires
            old(self).well_formed(),
        ensures
            final(self).well_formed(),
            r is Ok ==> old(self).deck_model().contains_key(deck.name@) && final(self).deck_model()
                == old(self).deck_model().insert(deck.name@, seq![]),
    ;

    /// Creates a deck if it does not exist.
    fn ensure_deck(&mut self, deck: &DeckConfig) -> (r: Result<(), AnkiWrapperError>)
        requires
            old(self).well_formed(),
        ensures
            final(self).well_formed(),
            r is Ok ==> final(self).deck_model() == ensured(old(self).deck_model(), deck.name@),
    ;

    /// Creates a deck that must not exist.
    fn create_deck(&mut self, deck: &DeckConfig) -> (r: Result<(), AnkiWrapperError>)
        requires
            old(self).well_formed(),
        ensures
            final(self).well_formed(),
    ;

    /// Deletes a deck that must exist.
    fn delete_deck(&mut self, deck: &DeckConfig) -> (r: Result<(), AnkiWrapperError>)
        requires
            old(self).well_formed(),
        ensures
            final(self).well_formed(),
    ;

    /// Whether a deck exists.
    fn deck_exists(&mut self, deck: &DeckConfig) -> (r: Result<bool, AnkiWrapperError>)
        requires
            old(self).well_formed(),
        ensures
            final(self).well_formed(),
    ;

    /// Renames a deck.
    fn rename_deck(&mut self, old_name: &str, new_name: &str) -> (r: Result<(), AnkiWrapperError>)
        requires
            old(self).well_formed(),
        ensures
            final(self).well_formed(),
    ;

    /// The names of all decks.
    fn get_all_deck_names(&mut self) -> (r: Result<Vec<String>, AnkiWrapperError>)
        requires
            old(self).well_formed(),
        ensures
            final(self).well_formed(),
    ;

    /// Moves cards to a deck, creating it if needed.
    fn move_cards_to_deck(&mut self, card_ids: &[CardId], target_deck: &DeckConfig) -> (r: Result<
        (),
        AnkiWrapperError,
    >)
        requires
            old(self).well_formed(),
        ensures
            final(self).well_formed(),
    ;

    /// Records a review of a card.
    fn record_review(&mut self, card_id: CardId, rating: ReviewRating) -> (r: Result<
        (),
        AnkiWrapperError,
    >)
        requires
            old(self).well_formed(),
        ensures
            final(self).well_formed(),
    ;

    /// The reviews of a card, oldest first.
    fn get_reviews(&mut self, card_id: CardId) -> (r: Result<Vec<ReviewEntry>, AnkiWrapperError>)
        requires
            old(self).well_formed(),
        ensures
            final(self).well_formed(),
    ;
}

} // verus!
