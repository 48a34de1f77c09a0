//! Carrying out a plan on a collection.
use crate::update_planner_parser::types::{Card, CardId, CardView, Operation, OperationView, SyncPlan, op_views};
use vstd::prelude::*;

verus! {

/// One change made to a collection.
pub enum Action {
    EnsureDeck(Seq<char>),
    ClearDeck(Seq<char>),
    AddCard(Seq<char>, CardView),
    DeleteNote(Seq<char>, CardId),
    UpdateCard(Seq<char>, CardId, CardView),
    Save,
}

/// A collection that plans are carried out on; it keeps the history of the
/// changes it accepted.
pub trait AnkiCollection {
    /// The changes accepted so far, oldest first.
    spec fn history(&self) -> Seq<Action>;

    /// The collection's own consistency.
    spec fn well_formed(&self) -> bool;

    /// The message of the last change that was refused, if any.
    spec fn refusal(&self) -> Option<Seq<char>>;

    /// The names of the decks the collection holds.
    spec fn deck_names(&self) -> Set<Seq<char>>;

    fn ensure_deck(&mut self, deck_name: &str) -> (r: Result<(), String>)
        requires
            old(self).well_formed(),
        ensures
            final(self).well_formed(),
            final(self).history() == (if r is Ok {
                old(self).history().push(Action::EnsureDeck(deck_name@))
            } else {
                old(self).history()
            }),
            r is Ok ==> final(self).deck_names() == old(self).deck_names().insert(deck_name@),
            r matches Err(m) ==> final(self).refusal() == Some(m@),
    ;

    fn clear_deck(&mut self, deck_name: &str) -> (r: Result<(), String>)
        requires
            old(self).well_formed(),
        ensures
            final(self).well_formed(),
            final(self).history() == (if r is Ok {
                old(self).history().push(Action::ClearDeck(deck_name@))
            } else {
                old(self).history()
            }),
            r matches Err(m) ==> final(self).refusal() == Some(m@),
    ;

    fn add_card(&mut self, deck_name: &str, card: &Card) -> (r: Result<(), String>)
        requires
            old(self).well_formed(),
        ensures
            final(self).well_formed(),
            final(self).history() == (if r is Ok {
                old(self).history().push(Action::AddCard(deck_name@, card@))
            } else {
                old(self).history()
            }),
            r matches Err(m) ==> final(self).refusal() == Some(m@),
    ;

    fn delete_note(&mut self, deck_name: &str, card_id: CardId) -> (r: Result<(), String>)
        requires
            old(self).well_formed(),
        ensures
            final(self).well_formed(),
            final(self).history() == (if r is Ok {
                old(self).history().push(Action::DeleteNote(deck_name@, card_id))
            } else {
                old(self).history()
            }),
            r matches Err(m) ==> final(self).refusal() == Some(m@),
    ;

    fn update_card(&mut self, deck_name: &str, card_id: CardId, card: &Card) -> (r: Result<
        (),
        String,
    >)
        requires
            old(self).well_formed(),
        ensures
            final(self).well_formed(),
            final(self).history() == (if r is Ok {
                old(self).history().push(Action::UpdateCard(deck_name@, card_id, card@))
            } else {
                old(self).history()
            }),
            r matches Err(m) ==> final(self).refusal() == Some(m@),
    ;

    fn save(&mut self) -> (r: Result<(), String>)
        requires
            old(self).well_formed(),
        ensures
            final(self).well_formed(),
            final(self).history() == (if r is Ok {
                old(self).history().push(Action::Save)
            } else {
                old(self).history()
            }),
            r matches Err(m) ==> final(self).refusal() == Some(m@),
    ;
}

/// The change an operation makes to a deck.
pub open spec fn action_of(deck: Seq<char>, o: OperationView) -> Action {
    match o {
        OperationView::Add(c) => Action::AddCard(deck, c),
        OperationView::Delete(id) => Action::DeleteNote(deck, id),
        OperationView::Update(id, c) => Action::UpdateCard(deck, id, c),
    }
}

/// The changes a plan makes: the deck is ensured and cleared, the
/// operations are applied in order, and the collection is saved.
pub open spec fn plan_actions(plan_ops: Seq<OperationView>, deck: Seq<char>) -> Seq<Action> {
    seq![Action::EnsureDeck(deck), Action::ClearDeck(deck)] + plan_ops.map_values(
        |o: OperationView| action_of(deck, o),
    ) + seq![Action::Save]
}

/// Carries out plans.
pub trait PlanExecutor {
    fn execute_plan<C: AnkiCollection>(&self, plan: &SyncPlan, collection: &mut C) -> (r: Result<
        (),
        String,
    >)
        requires
            old(collection).well_formed(),
        ensures
            final(collection).well_formed(),
    ;
}

/// The executor that rebuilds the deck from the plan.
pub struct DefaultExecutor;

impl PlanExecutor for DefaultExecutor {
    /// Applies every change of the plan, stopping at the first refused one:
    /// on success the collection accepted all of them; on failure a prefix,
    /// and the error is the collection's refusal of the next change.
    fn execute_plan<C: AnkiCollection>(&self, plan: &SyncPlan, collection: &mut C) -> (r: Result<
        (),
        String,
    >)
        ensures
            r is Ok ==> final(collection).history() == old(collection).history() + plan_actions(
                op_views(plan.operations@),
                plan.deck_name@,
            ),
            r is Err ==> exists|k: int|
                0 <= k < plan_actions(op_views(plan.operations@), plan.deck_name@).len()
                    && final(collection).history() == old(collection).history() + plan_actions(
                    op_views(plan.operations@),
                    plan.deck_name@,
                ).take(k),
            r matches Err(m) ==> final(collection).refusal() == Some(m@),
    {
        let ghost all = plan_actions(op_views(plan.operations@), plan.deck_name@);
        let ghost h0 = collection.history();
        let deck = plan.deck_name.as_str();
        let ghost ops = op_views(plan.operations@).map_values(
            |o: OperationView| action_of(plan.deck_name@, o),
        );
        assert(all =~= seq![Action::EnsureDeck(plan.deck_name@), Action::ClearDeck(plan.deck_name@)] + ops + seq![Action::Save]);
        if let Err(e) = collection.ensure_deck(deck) {
            assert(all.take(0) =~= seq![]);
            assert(collection.history() =~= h0 + all.take(0));
            return Err(e);
        }
        assert(collection.history() =~= h0 + all.take(1));
        if let Err(e) = collection.clear_deck(deck) {
            return Err(e);
        }
        assert(collection.history() =~= h0 + all.take(2));
        let mut i: usize = 0;
        while i < plan.operations.len()
            invariant
                0 <= i <= plan.operations.len(),
                collection.well_formed(),
                deck@ == plan.deck_name@,
                all == seq![Action::EnsureDeck(plan.deck_name@), Action::ClearDeck(plan.deck_name@)] + ops + seq![Action::Save],
                ops == op_views(plan.operations@).map_values(
                    |o: OperationView| action_of(plan.deck_name@, o),
                ),
                all.len() == plan.operations.len() + 3,
                h0 == old(collection).history(),
                all == plan_actions(op_views(plan.operations@), plan.deck_name@),
                collection.history() == h0 + all.take(i + 2),
            decreases plan.operations.len() - i,
        {
            let res = match &plan.operations[i] {
                Operation::Add(card) => collection.add_card(deck, card),
                Operation::Delete(card_id) => collection.delete_note(deck, *card_id),
                Operation::Update(card_id, card) => collection.update_card(deck, *card_id, card),
            };
            if let Err(e) = res {
                assert(0 <= i + 2 < all.len() && collection.history() == h0 + all.take(i + 2));
                return Err(e);
            }
            assert(all[i + 2] == ops[i as int]);
            assert(all.take(i + 3) =~= all.take(i + 2).push(all[i + 2]));
            assert(collection.history() =~= h0 + all.take(i + 3));
            i = i + 1;
        }
        if let Err(e) = collection.save() {
            return Err(e);
        }
        assert(all.take(all.len() - 1).push(Action::Save) =~= all);
        assert(collection.history() =~= h0 + all);
        Ok(())
    }
}

} // verus!
