//! A collection of decks seen through the interface that plans are carried
//! out on: planner cards become Anki notes with HTML fields.
use crate::anki_wrapper::collection::{cards_per_note, ensured, note_added, notes_of, AnkiCollection as AnkiWrapperCollection};
use crate::anki_wrapper::decks::without_note;
use crate::anki_wrapper::error::{anki_error_message, says_not_found, AnkiWrapperError};
use crate::anki_wrapper::types::{info_views, Card as AnkiWrapperCard, CardInfo, CardInfoView, CardType as AnkiWrapperCardType, DeckConfig, NoteId};
use crate::anki_wrapper::fake::FakeAnkiCollection;
use crate::html::{card_html, text_to_html};
use crate::text::{append_all, chars_of, find, find_exec, hex_padded, hex_padded_chars, push_str, string_of};
use crate::update_planner_parser::executor::{Action, AnkiCollection as ExecutorCollection};
use crate::update_planner_parser::types::{Card as PlannerCard, CardId as PlannerCardId, CardType as PlannerCardType};
use vstd::prelude::*;

verus! {

/// A collection, carrying out plans.
pub struct AnkiCollectionAdapter<C> {
    inner: C,
    applied: Ghost<Seq<Action>>,
    refused: Ghost<Option<Seq<char>>>,
}

/// The note type an Anki card gets for a planner card type.
pub open spec fn anki_type(t: PlannerCardType) -> AnkiWrapperCardType {
    match t {
        PlannerCardType::Basic => AnkiWrapperCardType::Basic,
        PlannerCardType::Bidirectional => AnkiWrapperCardType::BasicReversed,
        PlannerCardType::Sequence => AnkiWrapperCardType::Basic,
    }
}

/// Each field as HTML.
pub open spec fn html_fields(fields: Seq<Seq<char>>) -> Seq<Seq<char>> {
    fields.map_values(|f: Seq<char>| card_html(f))
}

fn deck_config(name: &str) -> (r: DeckConfig)
    ensures
        r.name@ == name@,
{
    DeckConfig { name: string_of(&chars_of(name)) }
}

impl<C> AnkiCollectionAdapter<C> {
    /// The wrapped collection.
    pub closed spec fn inner_view(&self) -> C {
        self.inner
    }

    /// An adapter around a collection, with no changes recorded.
    pub fn new(collection: C) -> (r: AnkiCollectionAdapter<C>)
        ensures
            r.inner_view() == collection,
            r.history() == Seq::<Action>::empty(),
    {
        AnkiCollectionAdapter { inner: collection, applied: Ghost(Seq::empty()), refused: Ghost(None) }
    }

    /// The wrapped collection.
    pub fn inner(&self) -> (r: &C)
        ensures
            *r == self.inner_view(),
    {
        &self.inner
    }

    /// The wrapped collection, to change.
    pub fn inner_mut(&mut self) -> (r: &mut C)
        ensures
            *r == old(self).inner_view(),
            final(self).inner_view() == *final(r),
            final(self).history() == old(self).history(),
    {
        &mut self.inner
    }

    /// The wrapped collection, giving up the adapter.
    pub fn into_inner(self) -> (r: C)
        ensures
            r == self.inner_view(),
    {
        self.inner
    }

    /// The changes accepted through the plan interface.
    pub closed spec fn history(&self) -> Seq<Action> {
        self.applied@
    }
}

/// A planner card as the note Anki stores: mapped type, HTML fields.
pub fn convert_card(card: &PlannerCard) -> (r: AnkiWrapperCard)
    ensures
        r.card_type == anki_type(card.card_type),
        r.fields.deep_view() == html_fields(card.fields.deep_view()),
{
    let card_type = match card.card_type {
        PlannerCardType::Basic => AnkiWrapperCardType::Basic,
        PlannerCardType::Bidirectional => AnkiWrapperCardType::BasicReversed,
        PlannerCardType::Sequence => AnkiWrapperCardType::Basic,
    };
    let ghost fv = card.fields.deep_view();
    let mut fields: Vec<String> = Vec::new();
    let mut i: usize = 0;
    while i < card.fields.len()
        invariant
            0 <= i <= card.fields.len(),
            fv == card.fields.deep_view(),
            fields.deep_view() == html_fields(fv).take(i as int),
        decreases card.fields.len() - i,
    {
        let h = text_to_html(card.fields[i].as_str());
        let ghost b = fields.deep_view();
        fields.push(h);
        assert(fields.deep_view() =~= b.push(h@));
        i = i + 1;
        assert(html_fields(fv).take(i as int) =~= html_fields(fv).take(i - 1).push(card_html(fv[i - 1])));
    }
    assert(html_fields(fv).take(card.fields.len() as int) =~= html_fields(fv));
    AnkiWrapperCard { card_type, fields }
}

/// What the adapter makes of a collection's answer to reading a deck: its
/// entries as they are; no entries for an error that says "not found";
/// any other error as it is.
pub fn read_answer(answer: Result<Vec<CardInfo>, AnkiWrapperError>) -> (r: Result<
    Vec<CardInfo>,
    AnkiWrapperError,
>)
    ensures
        match answer {
            Ok(v) => r matches Ok(w) && w@ == v@,
            Err(e) => if says_not_found(e) {
                r matches Ok(w) && w@.len() == 0
            } else {
                r == Err::<Vec<CardInfo>, AnkiWrapperError>(e)
            },
        },
{
    match answer {
        Ok(cards) => Ok(cards),
        Err(e) => {
            let msg = e.to_string();
            let m = chars_of(msg.as_str());
            if find_exec(&m, &chars_of("not found")).is_some() {
                Ok(Vec::new())
            } else {
                Err(e)
            }
        },
    }
}

/// `m` is the message of a collection error.
pub open spec fn is_error_message(m: Seq<char>, e: AnkiWrapperError) -> bool {
    m == anki_error_message(e)
}

/// `m` is the message of some collection error.
pub open spec fn collection_error(m: Seq<char>) -> bool {
    exists|e: AnkiWrapperError| #[trigger] is_error_message(m, e)
}

impl<C: AnkiWrapperCollection> AnkiCollectionAdapter<C> {
    /// Creates the deck if needed.
    pub fn ensure_deck(&mut self, deck_name: &str) -> (r: Result<(), AnkiWrapperError>)
        requires
            old(self).inner_view().well_formed(),
        ensures
            final(self).inner_view().well_formed(),
            final(self).history() == old(self).history(),
            r is Ok ==> final(self).inner_view().deck_model() == ensured(
                old(self).inner_view().deck_model(),
                deck_name@,
            ),
    {
        let deck = deck_config(deck_name);
        self.inner.ensure_deck(&deck)
    }

    /// One entry per note of the deck; none when the collection reports the
    /// deck (or anything) as not found. The collection's answer is turned
    /// into the result as `read_answer` says.
    pub fn get_cards_in_deck(&mut self, deck_name: &str) -> (r: Result<Vec<CardInfo>, AnkiWrapperError>)
        requires
            old(self).inner_view().well_formed(),
        ensures
            final(self).inner_view().well_formed(),
            final(self).history() == old(self).history(),
            final(self).inner_view().deck_model() == old(self).inner_view().deck_model(),
            r matches Ok(v) ==> if old(self).inner_view().deck_model().contains_key(deck_name@) {
                info_views(v@) == notes_of(old(self).inner_view().deck_model()[deck_name@])
            } else {
                v@.len() == 0
            },
            r matches Err(e) ==> !says_not_found(e),
    {
        let deck = deck_config(deck_name);
        let answer = self.inner.get_cards_in_deck(&deck);
        read_answer(answer)
    }

    /// Deletes a note and its cards.
    pub fn delete_note_by_id(&mut self, note_id: NoteId) -> (r: Result<(), AnkiWrapperError>)
        requires
            old(self).inner_view().well_formed(),
        ensures
            final(self).inner_view().well_formed(),
            final(self).history() == old(self).history(),
            r is Ok ==> final(self).inner_view().deck_model() == without_note(
                old(self).inner_view().deck_model(),
                note_id,
            ),
    {
        self.inner.delete_note(note_id)
    }

    /// Adds a planner card to a deck as a note with HTML fields.
    pub fn add_card_to_deck(&mut self, deck_name: &str, card: &PlannerCard) -> (r: Result<(), AnkiWrapperError>)
        requires
            old(self).inner_view().well_formed(),
        ensures
            final(self).inner_view().well_formed(),
            final(self).history() == old(self).history(),
            r is Ok ==> note_added(
                old(self).inner_view().deck_model(),
                final(self).inner_view().deck_model(),
                deck_name@,
                anki_type(card.card_type),
                html_fields(card.fields.deep_view()),
            ),
    {
        let deck = deck_config(deck_name);
        let anki_card = convert_card(card);
        self.inner.add_card(&deck, &anki_card)
    }

    /// Nothing to persist: a collection commits each change.
    pub fn save(&mut self) -> (r: Result<(), AnkiWrapperError>)
        ensures
            r is Ok,
            *final(self) == *old(self),
    {
        Ok(())
    }
}

impl AnkiCollectionAdapter<FakeAnkiCollection> {
    /// An adapter around an empty in-memory collection.
    pub fn fake() -> (r: AnkiCollectionAdapter<FakeAnkiCollection>)
        ensures
            r.inner_view().well_formed(),
            r.inner_view().deck_model() == Map::<Seq<char>, Seq<CardInfoView>>::empty(),
            r.history() == Seq::<Action>::empty(),
    {
        AnkiCollectionAdapter::new(FakeAnkiCollection::new())
    }
}

/// The refusal of a delete by content identifier.
pub open spec fn delete_refusal(id: PlannerCardId) -> Seq<char> {
    "delete_note not supported: content-hash CardId "@ + hex_padded(id.0 as nat, 16)
        + " cannot be mapped to database NoteId"@
}

impl<C: AnkiWrapperCollection> ExecutorCollection for AnkiCollectionAdapter<C> {
    closed spec fn history(&self) -> Seq<Action> {
        self.applied@
    }

    closed spec fn well_formed(&self) -> bool {
        self.inner.well_formed()
    }

    closed spec fn refusal(&self) -> Option<Seq<char>> {
        self.refused@
    }

    closed spec fn deck_names(&self) -> Set<Seq<char>> {
        self.inner.deck_model().dom()
    }

    /// Creates the deck in the collection if needed (the interface states
    /// that the deck is then among the collection's decks); a refusal comes
    /// back as the collection's error message.
    fn ensure_deck(&mut self, deck_name: &str) -> Result<(), String> {
        let deck = deck_config(deck_name);
        match self.inner.ensure_deck(&deck) {
            Ok(()) => {
                proof {
                    self.applied@ = self.applied@.push(Action::EnsureDeck(deck_name@));
                    let m = old(self).inner.deck_model();
                    assert(ensured(m, deck_name@).dom() =~= m.dom().insert(deck_name@));
                }
                Ok(())
            },
            Err(e) => {
                let m = e.to_string();
                proof {
                    self.refused@ = Some(m@);
                }
                Err(m)
            },
        }
    }

    /// Removes every card of the deck, which must exist; a refusal comes
    /// back as the collection's error message.
    fn clear_deck(&mut self, deck_name: &str) -> (r: Result<(), String>)
        ensures
            r is Ok ==> old(self).inner_view().deck_model().contains_key(deck_name@)
                && final(self).inner_view().deck_model() == old(self).inner_view().deck_model().insert(
                deck_name@,
                seq![],
            ),
            r matches Err(m) ==> collection_error(m@),
    {
        let deck = deck_config(deck_name);
        match self.inner.clear_deck(&deck) {
            Ok(()) => {
                proof {
                    self.applied@ = self.applied@.push(Action::ClearDeck(deck_name@));
                }
                Ok(())
            },
            Err(e) => {
                let m = e.to_string();
                assert(is_error_message(m@, e));
                proof {
                    self.refused@ = Some(m@);
                }
                Err(m)
            },
        }
    }

    /// Adds the card to the deck as a note with HTML fields; a refusal comes
    /// back as the collection's error message.
    fn add_card(&mut self, deck_name: &str, card: &PlannerCard) -> (r: Result<(), String>)
        ensures
            r is Ok ==> note_added(
                old(self).inner_view().deck_model(),
                final(self).inner_view().deck_model(),
                deck_name@,
                anki_type(card.card_type),
                html_fields(card.fields.deep_view()),
            ),
            r matches Err(m) ==> collection_error(m@),
    {
        let deck = deck_config(deck_name);
        let anki_card = convert_card(card);
        match self.inner.add_card(&deck, &anki_card) {
            Ok(()) => {
                proof {
                    self.applied@ = self.applied@.push(Action::AddCard(deck_name@, card@));
                }
                Ok(())
            },
            Err(e) => {
                let m = e.to_string();
                assert(is_error_message(m@, e));
                proof {
                    self.refused@ = Some(m@);
                }
                Err(m)
            },
        }
    }

    /// Refused: a content identifier does not name a database note.
    fn delete_note(&mut self, deck_name: &str, card_id: PlannerCardId) -> (r: Result<(), String>)
        ensures
            r matches Err(m) && m@ == delete_refusal(card_id),
    {
        let mut m = chars_of("delete_note not supported: content-hash CardId ");
        let h = hex_padded_chars(card_id.0, 16);
        append_all(&mut m, &h);
        push_str(&mut m, " cannot be mapped to database NoteId");
        let m = string_of(&m);
        proof {
            self.refused@ = Some(m@);
        }
        Err(m)
    }

    /// Updates are not part of the plans this adapter carries out.
    fn update_card(&mut self, deck_name: &str, card_id: PlannerCardId, card: &PlannerCard) -> (r: Result<(), String>)
        ensures
            r matches Err(m) && m@ == "update_card not supported"@,
            final(self).inner_view() == old(self).inner_view(),
    {
        let m = string_of(&chars_of("update_card not supported"));
        proof {
            self.refused@ = Some(m@);
        }
        Err(m)
    }

    /// Nothing to persist: a collection commits each change, so saving is
    /// always accepted and leaves the collection as it is. Its contract is
    /// the interface's; the inherent `save` states the rest.
    fn save(&mut self) -> Result<(), String> {
        proof {
            self.applied@ = self.applied@.push(Action::Save);
        }
        Ok(())
    }
}

/// A bidirectional card becomes a reversed note, whose two cards ask each
/// way; basic and sequence cards become basic notes with one card.
pub proof fn bidirectional_cards_become_reversed_notes(t: PlannerCardType)
    ensures
        t == PlannerCardType::Bidirectional <==> anki_type(t) == AnkiWrapperCardType::BasicReversed,
        cards_per_note(anki_type(t)) == (if t == PlannerCardType::Bidirectional {
            2int
        } else {
            1int
        }),
{
}

} // verus!
