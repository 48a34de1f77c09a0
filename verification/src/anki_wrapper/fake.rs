//! An in-memory collection with the behaviour of Anki's, for tests and dry runs.
use crate::anki_wrapper::collection::{cards_per_note, deck_or_empty, ensured, first_per_note, AnkiCollection};
use crate::anki_wrapper::decks::{card_held, card_in, card_with_note, lemma_without_absent_note, not_listed, note_in, with_note_set, without_note, DeckMap};
use crate::anki_wrapper::error::AnkiWrapperError;
use crate::anki_wrapper::types::{copy_info, copy_strings, info_views, Card, CardId, CardInfo, CardInfoView, CardType, DeckConfig, NoteId, ReviewEntry, ReviewRating};
use crate::text::{chars_of, string_of};
use vstd::prelude::*;

verus! {

/// Decks, cards and reviews held in memory.
pub struct FakeAnkiCollection {
    /// The decks and their cards.
    pub decks: DeckMap,
    reviews: Vec<ReviewEntry>,
    next_card_id: i64,
    next_note_id: i64,
}

/// The cards of a new note: ids from `card_id`, one card (two when reversed).
pub open spec fn fresh_note(card_id: i64, note_id: i64, t: CardType, fields: Seq<Seq<char>>) -> Seq<
    CardInfoView,
> {
    let first = CardInfoView { id: CardId(card_id), note_id: NoteId(note_id), card_type: t, fields };
    if t == CardType::BasicReversed {
        seq![first, CardInfoView { id: CardId((card_id + 1) as i64), ..first }]
    } else {
        seq![first]
    }
}

/// The error is `DeckNotFound` for the name.
pub open spec fn deck_not_found(e: AnkiWrapperError, name: Seq<char>) -> bool {
    e matches AnkiWrapperError::DeckNotFound { name: n } && n@ == name
}

/// The error is `DeckAlreadyExists` for the name.
pub open spec fn deck_exists_err(e: AnkiWrapperError, name: Seq<char>) -> bool {
    e matches AnkiWrapperError::DeckAlreadyExists { name: n } && n@ == name
}

/// Every card in the decks belongs to a note with an id below `bound`.
pub open spec fn notes_below(m: Map<Seq<char>, Seq<CardInfoView>>, bound: i64) -> bool {
    forall|n: Seq<char>, i: int|
        m.contains_key(n) && 0 <= i < m[n].len() ==> (#[trigger] m[n][i]).note_id.0 < bound
}

/// The notes of a deck filtered by a predicate stay below the bound.
proof fn lemma_filtered_below(s: Seq<CardInfoView>, p: spec_fn(CardInfoView) -> bool, b: i64, i: int)
    requires
        forall|j: int| 0 <= j < s.len() ==> (#[trigger] s[j]).note_id.0 < b,
        0 <= i < s.filter(p).len(),
    ensures
        s.filter(p)[i].note_id.0 < b,
{
    let x = s.filter(p)[i];
    assert(s.filter(p).contains(x));
    s.lemma_filter_contains_rev(p, x);
}

/// Removing a note keeps the notes below the bound.
proof fn lemma_below_without_note(m: Map<Seq<char>, Seq<CardInfoView>>, id: NoteId, b: i64)
    requires
        notes_below(m, b),
    ensures
        notes_below(without_note(m, id), b),
{
    let m2 = without_note(m, id);
    assert forall|n: Seq<char>, i: int| m2.contains_key(n) && 0 <= i < m2[n].len() implies (
    #[trigger] m2[n][i]).note_id.0 < b by {
        assert(forall|j: int| 0 <= j < m[n].len() ==> (#[trigger] m[n][j]).note_id.0 < b);
        lemma_filtered_below(m[n], crate::anki_wrapper::decks::not_of_note(id), b, i);
    }
}

/// Reviews of one card.
pub open spec fn of_card(id: CardId) -> spec_fn(ReviewEntry) -> bool {
    |e: ReviewEntry| e.card_id == id
}

/// Deleting a note leaves no card of it in any deck, and every other card
/// where it was.
pub proof fn deleted_note_leaves_no_card(m: Map<Seq<char>, Seq<CardInfoView>>, id: NoteId)
    ensures
        forall|n: Seq<char>, i: int|
            without_note(m, id).contains_key(n) && 0 <= i < without_note(m, id)[n].len() ==> (#[trigger] without_note(
                m,
                id,
            )[n][i]).note_id != id,
        forall|n: Seq<char>| #[trigger] without_note(m, id).contains_key(n) <==> m.contains_key(n),
        forall|n: Seq<char>, i: int|
            m.contains_key(n) && 0 <= i < m[n].len() && (#[trigger] m[n][i]).note_id != id ==> without_note(m, id)[n].contains(
                m[n][i],
            ),
{
    assert forall|n: Seq<char>, i: int|
        without_note(m, id).contains_key(n) && 0 <= i < without_note(m, id)[n].len() implies (#[trigger] without_note(
            m,
            id,
        )[n][i]).note_id != id by {
        m[n].lemma_filter_pred(crate::anki_wrapper::decks::not_of_note(id), i);
    }
    assert forall|n: Seq<char>, i: int|
        m.contains_key(n) && 0 <= i < m[n].len() && (#[trigger] m[n][i]).note_id != id implies without_note(m, id)[n].contains(
            m[n][i],
        ) by {
        m[n].lemma_filter_contains(crate::anki_wrapper::decks::not_of_note(id), i);
    }
}

/// A recorded review is the last one read back for its card, and reading
/// back another card's reviews does not see it.
pub proof fn recorded_review_is_read_back(
    log: Seq<ReviewEntry>,
    card_id: CardId,
    rating: ReviewRating,
    other: CardId,
)
    ensures
        ({
            let e = ReviewEntry { card_id, rating, interval: 0, ease_factor: 0 };
            &&& log.push(e).filter(of_card(card_id)) == log.filter(of_card(card_id)).push(e)
            &&& other != card_id ==> log.push(e).filter(of_card(other)) == log.filter(of_card(other))
        }),
{
    let e = ReviewEntry { card_id, rating, interval: 0, ease_factor: 0 };
    log.lemma_filter_push(e, of_card(card_id));
    log.lemma_filter_push(e, of_card(other));
}

impl FakeAnkiCollection {
    /// All reviews recorded, oldest first.
    pub closed spec fn review_log(&self) -> Seq<ReviewEntry> {
        self.reviews@
    }

    /// The id the next card gets.
    pub closed spec fn next_card(&self) -> i64 {
        self.next_card_id
    }

    /// The id the next note gets.
    pub closed spec fn next_note(&self) -> i64 {
        self.next_note_id
    }

    /// Identifiers are positive, and every note in the decks has an id below
    /// the next one handed out.
    pub closed spec fn ids_ok(&self) -> bool {
        &&& 1 <= self.next_card_id
        &&& 1 <= self.next_note_id
        &&& notes_below(self.decks@, self.next_note_id)
    }

    /// A note of this type can no longer get fresh identifiers.
    pub open spec fn exhausted(&self, t: CardType) -> bool {
        self.next_note() == i64::MAX || self.next_card() > i64::MAX - cards_per_note(t)
    }

    /// An empty collection.
    pub fn new() -> (r: FakeAnkiCollection)
        ensures
            r.well_formed(),
            r.deck_model() == Map::<Seq<char>, Seq<CardInfoView>>::empty(),
            r.review_log() == Seq::<ReviewEntry>::empty(),
            r.next_card() == 1,
            r.next_note() == 1,
    {
        let r = FakeAnkiCollection {
            decks: DeckMap::new(),
            reviews: Vec::new(),
            next_card_id: 1,
            next_note_id: 1,
        };
        assert(r.review_log() =~= Seq::<ReviewEntry>::empty());
        r
    }

    fn generate_card_id(&mut self) -> (r: CardId)
        requires
            old(self).next_card_id < i64::MAX,
        ensures
            r.0 == old(self).next_card_id,
            final(self).next_card_id == old(self).next_card_id + 1,
            final(self).next_note_id == old(self).next_note_id,
            final(self).decks == old(self).decks,
            final(self).reviews == old(self).reviews,
    {
        let id = CardId(self.next_card_id);
        self.next_card_id = self.next_card_id + 1;
        id
    }

    fn generate_note_id(&mut self) -> (r: NoteId)
        requires
            old(self).next_note_id < i64::MAX,
        ensures
            r.0 == old(self).next_note_id,
            final(self).next_note_id == old(self).next_note_id + 1,
            final(self).next_card_id == old(self).next_card_id,
            final(self).decks == old(self).decks,
            final(self).reviews == old(self).reviews,
    {
        let id = NoteId(self.next_note_id);
        self.next_note_id = self.next_note_id + 1;
        id
    }
}

impl Default for FakeAnkiCollection {
    fn default() -> (r: FakeAnkiCollection)
        ensures
            r.well_formed(),
            r.deck_model() == Map::<Seq<char>, Seq<CardInfoView>>::empty(),
    {
        FakeAnkiCollection::new()
    }
}

impl AnkiCollection for FakeAnkiCollection {
    closed spec fn deck_model(&self) -> Map<Seq<char>, Seq<CardInfoView>> {
        self.decks.view()
    }

    closed spec fn well_formed(&self) -> bool {
        self.decks.wf() && self.ids_ok()
    }

    fn add_card(&mut self, deck: &DeckConfig, card: &Card) -> (r: Result<(), AnkiWrapperError>)
        ensures
            r is Err <==> old(self).exhausted(card.card_type),
            r is Err ==> *final(self) == *old(self),
            r is Ok ==> final(self).deck_model() == old(self).deck_model().insert(
                deck.name@,
                deck_or_empty(old(self).deck_model(), deck.name@) + fresh_note(
                    old(self).next_card(),
                    old(self).next_note(),
                    card.card_type,
                    card.fields.deep_view(),
                ),
            ),
            r is Ok ==> final(self).next_note() == old(self).next_note() + 1,
            r is Ok ==> final(self).next_card() == old(self).next_card() + cards_per_note(
                card.card_type,
            ),
            final(self).review_log() == old(self).review_log(),
    {
        let reversed = card.card_type == CardType::BasicReversed;
        if self.next_note_id == i64::MAX || (reversed && self.next_card_id >= i64::MAX - 1) || (
        !reversed && self.next_card_id == i64::MAX) {
            return Err(
                AnkiWrapperError::AnkiError(string_of(&chars_of("identifier space exhausted"))),
            );
        }
        let note_id = self.generate_note_id();
        let card_id = self.generate_card_id();
        let mut infos: Vec<CardInfo> = Vec::new();
        infos.push(
            CardInfo {
                id: card_id,
                note_id,
                card_type: card.card_type,
                fields: copy_strings(&card.fields),
            },
        );
        if reversed {
            let rev_id = self.generate_card_id();
            infos.push(
                CardInfo {
                    id: rev_id,
                    note_id,
                    card_type: card.card_type,
                    fields: copy_strings(&card.fields),
                },
            );
        }
        assert(info_views(infos@) =~= fresh_note(
            old(self).next_card(),
            old(self).next_note(),
            card.card_type,
            card.fields.deep_view(),
        ));
        self.decks.append_cards(deck.name.as_str(), infos);
        proof {
            let old_m = old(self).deck_model();
            let new_m = self.deck_model();
            let name = deck.name@;
            let before = deck_or_empty(old_m, name);
            let fresh = fresh_note(
                old(self).next_card(),
                old(self).next_note(),
                card.card_type,
                card.fields.deep_view(),
            );
            assert(new_m.dom() =~= old_m.dom().insert(name));
            assert(new_m[name] == before + fresh);
            assert(new_m[name].subrange(0, before.len() as int) =~= before);
            assert forall|i: int| before.len() <= i < new_m[name].len() implies (
            #[trigger] new_m[name][i]).card_type == card.card_type && new_m[name][i].fields
                == card.fields.deep_view() && new_m[name][i].note_id == new_m[name][before.len() as int].note_id by {
                assert(new_m[name][i] == fresh[i - before.len()]);
                assert(new_m[name][before.len() as int] == fresh[0]);
            }
        }
        Ok(())
    }

    fn update_card(&mut self, card_id: CardId, card: &Card) -> (r: Result<(), AnkiWrapperError>)
        ensures
            final(self).next_card() == old(self).next_card(),
            final(self).next_note() == old(self).next_note(),
            r is Err <==> !card_in(old(self).deck_model(), card_id),
            r is Err ==> (r == Err::<(), AnkiWrapperError>(
                AnkiWrapperError::CardNotFound { id: card_id },
            )) && *final(self) == *old(self),
            r is Ok ==> exists|n: NoteId|
                card_with_note(old(self).deck_model(), card_id, n) && final(self).deck_model()
                    == with_note_set(
                    old(self).deck_model(),
                    n,
                    card.card_type,
                    card.fields.deep_view(),
                ),
            final(self).review_log() == old(self).review_log(),
    {
        match self.decks.note_of_card(card_id) {
            None => Err(AnkiWrapperError::CardNotFound { id: card_id }),
            Some(n) => {
                self.decks.set_note(n, card.card_type, &card.fields);
                assert(card_with_note(old(self).deck_model(), card_id, n));
                Ok(())
            },
        }
    }

    fn delete_note(&mut self, note_id: NoteId) -> (r: Result<(), AnkiWrapperError>)
        ensures
            r is Ok <==> note_in(old(self).deck_model(), note_id),
            r is Err ==> (r == Err::<(), AnkiWrapperError>(
                AnkiWrapperError::NoteNotFound { id: note_id },
            )),
            final(self).deck_model() == without_note(old(self).deck_model(), note_id),
            r is Err ==> final(self).deck_model() == old(self).deck_model(),
            final(self).review_log() == old(self).review_log(),
            final(self).next_card() == old(self).next_card(),
            final(self).next_note() == old(self).next_note(),
    {
        proof {
            lemma_below_without_note(self.decks@, note_id, self.next_note_id);
            if !note_in(self.decks@, note_id) {
                lemma_without_absent_note(self.decks@, note_id);
            }
        }
        if self.decks.remove_note(note_id) {
            Ok(())
        } else {
            Err(AnkiWrapperError::NoteNotFound { id: note_id })
        }
    }

    fn get_cards_in_deck(&mut self, deck: &DeckConfig) -> (r: Result<Vec<CardInfo>, AnkiWrapperError>)
        ensures
            r is Ok <==> old(self).deck_model().contains_key(deck.name@),
            r matches Err(e) ==> deck_not_found(e, deck.name@),
            *final(self) == *old(self),
    {
        match self.decks.get(deck.name.as_str()) {
            None => Err(AnkiWrapperError::DeckNotFound { name: deck.name.clone() }),
            Some(cards) => {
                let ghost cv = info_views(cards@);
                let mut out: Vec<CardInfo> = Vec::new();
                let mut i: usize = 0;
                while i < cards.len()
                    invariant
                        0 <= i <= cards.len(),
                        cv == info_views(cards@),
                        info_views(out@) == first_per_note(cv, i as int),
                    decreases cards.len() - i,
                {
                    let ghost ov = info_views(out@);
                    let mut seen = false;
                    let mut j: usize = 0;
                    while j < out.len()
                        invariant
                            0 <= j <= out.len(),
                            ov == info_views(out@),
                            seen <==> exists|jj: int| 0 <= jj < j && (#[trigger] ov[jj]).note_id == cards@[i as int].note_id,
                            i < cards.len(),
                        decreases out.len() - j,
                    {
                        assert(ov[j as int] == out[j as int]@);
                        if out[j].note_id == cards[i].note_id {
                            seen = true;
                        }
                        j = j + 1;
                    }
                    assert(cv[i as int] == cards[i as int]@);
                    if !seen {
                        let c = copy_info(&cards[i]);
                        out.push(c);
                        assert(info_views(out@) =~= ov.push(c@));
                    }
                    i = i + 1;
                }
                Ok(out)
            },
        }
    }

    fn clear_deck(&mut self, deck: &DeckConfig) -> (r: Result<(), AnkiWrapperError>)
        ensures
            final(self).next_card() == old(self).next_card(),
            final(self).next_note() == old(self).next_note(),
            r is Ok <==> old(self).deck_model().contains_key(deck.name@),
            r matches Err(e) ==> deck_not_found(e, deck.name@),
            r is Err ==> final(self).deck_model() == old(self).deck_model(),
            final(self).review_log() == old(self).review_log(),
    {
        let empty: Vec<CardInfo> = Vec::new();
        assert(info_views(empty@) =~= seq![]);
        if self.decks.set_cards(deck.name.as_str(), empty) {
            Ok(())
        } else {
            Err(AnkiWrapperError::DeckNotFound { name: deck.name.clone() })
        }
    }

    fn ensure_deck(&mut self, deck: &DeckConfig) -> (r: Result<(), AnkiWrapperError>)
        ensures
            r is Ok,
            final(self).review_log() == old(self).review_log(),
            final(self).next_card() == old(self).next_card(),
            final(self).next_note() == old(self).next_note(),
    {
        self.decks.ensure(deck.name.as_str());
        proof {
            let m = old(self).deck_model();
            if m.contains_key(deck.name@) {
                assert(ensured(m, deck.name@) =~= m);
            }
        }
        Ok(())
    }

    fn create_deck(&mut self, deck: &DeckConfig) -> (r: Result<(), AnkiWrapperError>)
        ensures
            final(self).next_card() == old(self).next_card(),
            final(self).next_note() == old(self).next_note(),
            r is Err <==> old(self).deck_model().contains_key(deck.name@),
            r matches Err(e) ==> deck_exists_err(e, deck.name@),
            final(self).deck_model() == ensured(old(self).deck_model(), deck.name@),
            final(self).review_log() == old(self).review_log(),
    {
        if self.decks.contains_key(deck.name.as_str()) {
            proof {
                assert(ensured(old(self).deck_model(), deck.name@) =~= old(self).deck_model());
            }
            return Err(AnkiWrapperError::DeckAlreadyExists { name: deck.name.clone() });
        }
        self.decks.ensure(deck.name.as_str());
        Ok(())
    }

    fn delete_deck(&mut self, deck: &DeckConfig) -> (r: Result<(), AnkiWrapperError>)
        ensures
            final(self).next_card() == old(self).next_card(),
            final(self).next_note() == old(self).next_note(),
            r is Ok <==> old(self).deck_model().contains_key(deck.name@),
            r matches Err(e) ==> deck_not_found(e, deck.name@),
            final(self).deck_model() == old(self).deck_model().remove(deck.name@),
            final(self).review_log() == old(self).review_log(),
    {
        if !self.decks.remove(deck.name.as_str()) {
            return Err(AnkiWrapperError::DeckNotFound { name: deck.name.clone() });
        }
        Ok(())
    }

    fn deck_exists(&mut self, deck: &DeckConfig) -> (r: Result<bool, AnkiWrapperError>)
        ensures
            r == Ok::<bool, AnkiWrapperError>(old(self).deck_model().contains_key(deck.name@)),
            *final(self) == *old(self),
    {
        Ok(self.decks.contains_key(deck.name.as_str()))
    }

    fn rename_deck(&mut self, old_name: &str, new_name: &str) -> (r: Result<(), AnkiWrapperError>)
        ensures
            final(self).next_card() == old(self).next_card(),
            final(self).next_note() == old(self).next_note(),
            !old(self).deck_model().contains_key(old_name@) ==> (r matches Err(e) && deck_not_found(
                e,
                old_name@,
            )),
            old(self).deck_model().contains_key(old_name@) && old(self).deck_model().contains_key(
                new_name@,
            ) ==> (r matches Err(e) && deck_exists_err(e, new_name@)),
            r is Err ==> final(self).deck_model() == old(self).deck_model(),
            r is Ok ==> old(self).deck_model().contains_key(old_name@) && !old(self).deck_model().contains_key(new_name@) && final(self).deck_model() == old(self).deck_model().remove(old_name@).insert(new_name@, old(self).deck_model()[old_name@]),
            final(self).review_log() == old(self).review_log(),
    {
        let cards = match self.decks.get(old_name) {
            None => {
                return Err(AnkiWrapperError::DeckNotFound { name: string_of(&chars_of(old_name)) });
            },
            Some(c) => {
                let mut v: Vec<CardInfo> = Vec::new();
                let mut i: usize = 0;
                while i < c.len()
                    invariant
                        0 <= i <= c.len(),
                        info_views(v@) == info_views(c@).take(i as int),
                    decreases c.len() - i,
                {
                    let x = copy_info(&c[i]);
                    let ghost b = v@;
                    v.push(x);
                    assert(info_views(v@) =~= info_views(b).push(x@));
                    i = i + 1;
                    assert(info_views(v@) =~= info_views(c@).take(i as int));
                }
                assert(info_views(c@).take(c.len() as int) =~= info_views(c@));
                v
            },
        };
        if self.decks.contains_key(new_name) {
            return Err(AnkiWrapperError::DeckAlreadyExists { name: string_of(&chars_of(new_name)) });
        }
        self.decks.remove(old_name);
        self.decks.append_cards(new_name, cards);
        proof {
            let m1 = old(self).deck_model().remove(old_name@);
            assert(!m1.contains_key(new_name@));
            assert(seq![] + info_views(cards@) =~= info_views(cards@));
        }
        Ok(())
    }

    fn get_all_deck_names(&mut self) -> (r: Result<Vec<String>, AnkiWrapperError>)
        ensures
            r matches Ok(v) && v@.len() == old(self).deck_model().dom().len()
                && (forall|i: int| 0 <= i < v@.len() ==> old(self).deck_model().contains_key(#[trigger] v@[i]@))
                && (forall|i: int, j: int| 0 <= i < j < v@.len() ==> (#[trigger] v@[i])@ != (#[trigger] v@[j])@)
                && (forall|n: Seq<char>| #[trigger] old(self).deck_model().contains_key(n) ==> exists|i: int| 0 <= i < v@.len() && v@[i]@ == n),
            *final(self) == *old(self),
    {
        Ok(self.decks.names())
    }

    fn move_cards_to_deck(&mut self, card_ids: &[CardId], target_deck: &DeckConfig) -> (r: Result<
        (),
        AnkiWrapperError,
    >)
        ensures
            final(self).next_card() == old(self).next_card(),
            final(self).next_note() == old(self).next_note(),
            r is Ok,
            final(self).deck_model().dom() == old(self).deck_model().dom().insert(target_deck.name@),
            forall|k: Seq<char>| #[trigger] old(self).deck_model().contains_key(k) && k != target_deck.name@
                ==> final(self).deck_model()[k] == old(self).deck_model()[k].filter(not_listed(card_ids@)),
            ({
                let kept = deck_or_empty(old(self).deck_model(), target_deck.name@).filter(not_listed(card_ids@));
                let t = final(self).deck_model()[target_deck.name@];
                &&& kept.len() <= t.len()
                &&& t.subrange(0, kept.len() as int) == kept
                &&& forall|i: int| kept.len() <= i < t.len() ==> card_ids@.contains((#[trigger] t[i]).id)
            }),
            final(self).review_log() == old(self).review_log(),
    {
        self.decks.ensure(target_deck.name.as_str());
        let ghost me = self.decks@;
        let moved = self.decks.take_ids(card_ids);
        let ghost mt = self.decks@;
        let ghost mv = info_views(moved@);
        self.decks.append_cards(target_deck.name.as_str(), moved);
        proof {
            let b = self.next_note_id;
            assert(notes_below(me, b));
            assert forall|n: Seq<char>, i: int| mt.contains_key(n) && 0 <= i < mt[n].len() implies (
            #[trigger] mt[n][i]).note_id.0 < b by {
                assert(forall|j: int| 0 <= j < me[n].len() ==> (#[trigger] me[n][j]).note_id.0 < b);
                lemma_filtered_below(me[n], not_listed(card_ids@), b, i);
            }
            assert forall|i: int| 0 <= i < mv.len() implies (#[trigger] mv[i]).note_id.0 < b by {
                assert(card_held(me, moved@[i]@));
                assert(mv[i] == moved@[i]@);
            }
            let fm = self.decks@;
            let name = target_deck.name@;
            assert forall|n: Seq<char>, i: int| fm.contains_key(n) && 0 <= i < fm[n].len() implies (
            #[trigger] fm[n][i]).note_id.0 < b by {
                if n == name {
                    let base: Seq<CardInfoView> = if mt.contains_key(name) { mt[name] } else { seq![] };
                    assert(fm[n] == base + mv);
                    if i < base.len() {
                        assert(fm[n][i] == mt[name][i]);
                    } else {
                        assert(fm[n][i] == mv[i - base.len()]);
                    }
                }
            }
            assert(notes_below(fm, b));
            let m0 = old(self).deck_model();
            let name = target_deck.name@;
            let kept = deck_or_empty(m0, name).filter(not_listed(card_ids@));
            let t = self.deck_model()[name];
            assert(t.subrange(0, kept.len() as int) =~= kept);
            assert(self.deck_model().dom() =~= m0.dom().insert(name));
        }
        Ok(())
    }

    fn record_review(&mut self, card_id: CardId, rating: ReviewRating) -> (r: Result<
        (),
        AnkiWrapperError,
    >)
        ensures
            final(self).next_card() == old(self).next_card(),
            final(self).next_note() == old(self).next_note(),
            r is Ok <==> card_in(old(self).deck_model(), card_id),
            r is Err ==> (r == Err::<(), AnkiWrapperError>(
                AnkiWrapperError::CardNotFound { id: card_id },
            )),
            final(self).deck_model() == old(self).deck_model(),
            final(self).review_log() == (if r is Ok {
                old(self).review_log().push(
                    (ReviewEntry { card_id, rating, interval: 0, ease_factor: 0 }),
                )
            } else {
                old(self).review_log()
            }),
    {
        match self.decks.note_of_card(card_id) {
            None => Err(AnkiWrapperError::CardNotFound { id: card_id }),
            Some(_) => {
                self.reviews.push(ReviewEntry { card_id, rating, interval: 0, ease_factor: 0 });
                Ok(())
            },
        }
    }

    fn get_reviews(&mut self, card_id: CardId) -> (r: Result<Vec<ReviewEntry>, AnkiWrapperError>)
        ensures
            r matches Ok(v) && v@ == old(self).review_log().filter(of_card(card_id)),
            *final(self) == *old(self),
    {
        let mut out: Vec<ReviewEntry> = Vec::new();
        let mut i: usize = 0;
        while i < self.reviews.len()
            invariant
                0 <= i <= self.reviews.len(),
                out@ == self.reviews@.take(i as int).filter(of_card(card_id)),
            decreases self.reviews.len() - i,
        {
            let ghost tk = self.reviews@.take(i as int);
            assert(self.reviews@.take(i + 1) =~= tk.push(self.reviews@[i as int]));
            proof {
                tk.lemma_filter_push(self.reviews@[i as int], of_card(card_id));
            }
            if self.reviews[i].card_id == card_id {
                out.push(self.reviews[i]);
            }
            i = i + 1;
        }
        assert(self.reviews@.take(self.reviews.len() as int) =~= self.reviews@);
        Ok(out)
    }
}

} // verus!
