//! Plans for syncing a deck with a set of documents.
use crate::text::{chars_of, string_of, trim, trim_chars};
use crate::update_planner_parser::error::PlanError;
use crate::update_planner_parser::types::{
    copy_card, op_views, views, CardView, DocumentSet, Operation, OperationView, SyncPlan,
};
use vstd::prelude::*;

verus! {

/// A planner of deck updates.
pub trait UpdatePlanner {
    /// A plan that builds the deck from scratch.
    fn plan_fresh_sync(&self, documents: &DocumentSet, deck_name: &str) -> Result<SyncPlan, PlanError>;

    /// A plan that updates the deck in place.
    fn plan_incremental_sync(&self, documents: &DocumentSet, deck_name: &str) -> Result<
        SyncPlan,
        PlanError,
    >;
}

/// The planner that adds every card.
pub struct SimplePlanner;

/// Every card as an addition.
pub open spec fn adds_of(cards: Seq<CardView>) -> Seq<OperationView> {
    cards.map_values(|c: CardView| OperationView::Add(c))
}

impl UpdatePlanner for SimplePlanner {
    /// Refuses a set without cards, then a blank deck name; otherwise adds
    /// every card in order.
    fn plan_fresh_sync(&self, documents: &DocumentSet, deck_name: &str) -> (r: Result<
        SyncPlan,
        PlanError,
    >)
        ensures
            documents.cards@.len() == 0 ==> r matches Err(PlanError::EmptyDocumentSet),
            documents.cards@.len() > 0 && trim(deck_name@).len() == 0 ==> (r matches Err(
                PlanError::InvalidDeckName(n),
            ) && n@ == deck_name@),
            documents.cards@.len() > 0 && trim(deck_name@).len() > 0 ==> (r matches Ok(p) && op_views(
                p.operations@,
            ) == adds_of(views(documents.cards@)) && p.deck_name@ == deck_name@),
    {
        if documents.cards.len() == 0 {
            return Err(PlanError::EmptyDocumentSet);
        }
        let name = chars_of(deck_name);
        let t = trim_chars(&name);
        if t.len() == 0 {
            return Err(PlanError::InvalidDeckName(string_of(&name)));
        }
        let ghost target = adds_of(views(documents.cards@));
        let mut ops: Vec<Operation> = Vec::new();
        let mut i: usize = 0;
        while i < documents.cards.len()
            invariant
                0 <= i <= documents.cards.len(),
                target == adds_of(views(documents.cards@)),
                op_views(ops@) == target.take(i as int),
            decreases documents.cards.len() - i,
        {
            let o = Operation::Add(copy_card(&documents.cards[i]));
            let ghost b = ops@;
            ops.push(o);
            assert(op_views(ops@) =~= op_views(b).push(o@));
            i = i + 1;
            assert(target.take(i as int) =~= target.take(i - 1).push(target[i - 1]));
        }
        assert(target.take(documents.cards.len() as int) =~= target);
        Ok(SyncPlan { operations: ops, deck_name: string_of(&name) })
    }

    /// Refuses a blank deck name; otherwise reports that incremental plans
    /// are not made (`DuplicateCards(0)`).
    fn plan_incremental_sync(&self, documents: &DocumentSet, deck_name: &str) -> (r: Result<
        SyncPlan,
        PlanError,
    >)
        ensures
            trim(deck_name@).len() == 0 ==> (r matches Err(PlanError::InvalidDeckName(n)) && n@
                == deck_name@),
            trim(deck_name@).len() > 0 ==> r matches Err(PlanError::DuplicateCards(0)),
    {
        let name = chars_of(deck_name);
        let t = trim_chars(&name);
        if t.len() == 0 {
            return Err(PlanError::InvalidDeckName(string_of(&name)));
        }
        Err(PlanError::DuplicateCards(0))
    }
}

} // verus!
