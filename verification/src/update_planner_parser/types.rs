//! Cards to sync, their content identifiers, and the diff between two
//! document sets.
use crate::assoc::{assoc_map, keys_distinct, lemma_assoc_dom, lemma_assoc_get, lemma_assoc_push, lemma_assoc_update};
use crate::text::{hex_padded, hex_padded_chars, string_of};
use std::hash::BuildHasher;
use vstd::prelude::*;

verus! {

/// A stable identifier derived from a card's content.
#[derive(Debug, Clone, Copy, PartialEq, Eq, Structural, Hash, PartialOrd, Ord)]
pub struct CardId(pub u64);

/// The kind of a card.
#[derive(Debug, Clone, Copy, PartialEq, Eq, Structural, Hash)]
pub enum CardType {
    Basic,
    Bidirectional,
    Sequence,
}

/// A card with its type and fields.
#[derive(Debug, Clone, PartialEq, Eq, Hash)]
pub struct Card {
    pub card_type: CardType,
    pub fields: Vec<String>,
}

/// The value of a card.
pub struct CardView {
    pub card_type: CardType,
    pub fields: Seq<Seq<char>>,
}

impl View for Card {
    type V = CardView;

    open spec fn view(&self) -> CardView {
        CardView { card_type: self.card_type, fields: self.fields.deep_view() }
    }
}

/// The values of a sequence of cards.
pub open spec fn views(s: Seq<Card>) -> Seq<CardView> {
    s.map_values(|c: Card| c@)
}

/// The value that `DefaultHasher` computes from a card's derived `Hash`.
pub uninterp spec fn default_hash_of_planner_card(c: CardView) -> u64;

/// Hashes a card with a fresh `DefaultHasher` (zero keys) through
/// `BuildHasher::hash_one`; the result is a function of the card's content.
#[verifier::external_body]
fn hash_card(card: &Card) -> (r: u64)
    ensures
        r == default_hash_of_planner_card(card@),
{
    std::hash::BuildHasherDefault::<std::collections::hash_map::DefaultHasher>::default().hash_one(
        card,
    )
}

/// The identifier of a card value.
pub open spec fn id_of(c: CardView) -> u64 {
    default_hash_of_planner_card(c)
}

impl CardId {
    /// The identifier of a card: the hash of its content.
    pub fn from_card(card: &Card) -> (r: CardId)
        ensures
            r.0 == id_of(card@),
    {
        CardId(hash_card(card))
    }

    /// The raw value.
    pub fn as_u64(&self) -> (r: u64)
        ensures
            r == self.0,
    {
        self.0
    }

    /// Sixteen lower-case hexadecimal digits (`{:016x}`).
    pub fn to_string(&self) -> (r: String)
        ensures
            r@ == hex_padded(self.0 as nat, 16),
    {
        let v = hex_padded_chars(self.0, 16);
        string_of(&v)
    }
}

impl Card {
    /// The stable identifier of this card.
    pub fn id(&self) -> (r: CardId)
        ensures
            r.0 == id_of(self@),
    {
        CardId::from_card(self)
    }
}

/// A copy of a card.
pub fn copy_card(c: &Card) -> (r: Card)
    ensures
        r@ == c@,
{
    Card { card_type: c.card_type, fields: crate::anki_wrapper::types::copy_strings(&c.fields) }
}

/// Equality of card values.
pub fn same_card(a: &Card, b: &Card) -> (r: bool)
    ensures
        r == (a@ == b@),
{
    if a.card_type != b.card_type || a.fields.len() != b.fields.len() {
        proof {
            if a.fields.len() != b.fields.len() {
                assert(a@.fields.len() != b@.fields.len());
            }
        }
        return false;
    }
    let mut i: usize = 0;
    while i < a.fields.len()
        invariant
            0 <= i <= a.fields.len(),
            a.fields.len() == b.fields.len(),
            forall|j: int| 0 <= j < i ==> a.fields@[j]@ == b.fields@[j]@,
        decreases a.fields.len() - i,
    {
        if a.fields[i] != b.fields[i] {
            assert(a@.fields[i as int] != b@.fields[i as int]);
            return false;
        }
        i = i + 1;
    }
    assert(a@.fields =~= b@.fields);
    true
}

/// One change to a deck.
#[derive(Debug, Clone, PartialEq)]
pub enum Operation {
    Add(Card),
    Delete(CardId),
    Update(CardId, Card),
}

/// The cards of a set of documents.
#[derive(Debug, Clone)]
pub struct DocumentSet {
    pub cards: Vec<Card>,
    pub source_files: Vec<String>,
}

impl Default for DocumentSet {
    fn default() -> (r: DocumentSet)
        ensures
            r.cards@.len() == 0,
            r.source_files@.len() == 0,
    {
        DocumentSet { cards: Vec::new(), source_files: Vec::new() }
    }
}

/// The operations that bring a deck up to date.
#[derive(Debug, Clone, PartialEq)]
pub struct SyncPlan {
    pub operations: Vec<Operation>,
    pub deck_name: String,
}

/// Cards added, deleted and changed between two document sets.
#[derive(Debug, Clone, PartialEq)]
pub struct DocumentDiff {
    pub added: Vec<Card>,
    pub deleted: Vec<Card>,
    /// `(old, new)` pairs.
    pub updated: Vec<(Card, Card)>,
}

/// Each card paired with its identifier.
pub open spec fn keyed(s: Seq<CardView>) -> Seq<(u64, CardView)> {
    s.map_values(|c: CardView| (id_of(c), c))
}

/// Cards keyed by identifier; of two cards with one identifier the later wins.
pub open spec fn by_id(s: Seq<CardView>) -> Map<u64, CardView> {
    assoc_map(keyed(s))
}

/// The changed pairs: identifiers in both sets whose cards differ.
pub open spec fn changed(old: Map<u64, CardView>, new: Map<u64, CardView>) -> Map<u64, (CardView, CardView)> {
    Map::new(
        |k: u64| old.contains_key(k) && new.contains_key(k) && old[k] != new[k],
        |k: u64| (old[k], new[k]),
    )
}

/// The values of the changed pairs, keyed by identifier.
pub open spec fn pair_views(s: Seq<(Card, Card)>) -> Seq<(u64, (CardView, CardView))> {
    s.map_values(|p: (Card, Card)| (id_of(p.1@), (p.0@, p.1@)))
}

/// The values of an index of cards.
pub open spec fn entry_views(e: Seq<(u64, Card)>) -> Seq<(u64, CardView)> {
    e.map_values(|p: (u64, Card)| (p.0, p.1@))
}

/// Cards keyed by identifier, the later of two with one identifier kept.
fn index_by_id(cards: &Vec<Card>) -> (r: Vec<(u64, Card)>)
    ensures
        keys_distinct(entry_views(r@)),
        assoc_map(entry_views(r@)) == by_id(views(cards@)),
        forall|k: int| 0 <= k < r@.len() ==> (#[trigger] r@[k]).0 == id_of(r@[k].1@),
{
    let ghost cv = views(cards@);
    let mut e: Vec<(u64, Card)> = Vec::new();
    assert(entry_views(e@) =~= seq![]);
    assert(keyed(cv.take(0)) =~= seq![]);
    let mut i: usize = 0;
    while i < cards.len()
        invariant
            0 <= i <= cards.len(),
            cv == views(cards@),
            keys_distinct(entry_views(e@)),
            assoc_map(entry_views(e@)) == assoc_map(keyed(cv.take(i as int))),
            forall|k: int| 0 <= k < e@.len() ==> (#[trigger] e@[k]).0 == id_of(e@[k].1@),
        decreases cards.len() - i,
    {
        let id = cards[i].id().0;
        let c = copy_card(&cards[i]);
        assert(cv[i as int] == c@);
        assert(keyed(cv.take(i + 1)) =~= keyed(cv.take(i as int)).push((id, c@)));
        assert(keyed(cv.take(i + 1)).drop_last() =~= keyed(cv.take(i as int)));
        let ghost ev = entry_views(e@);
        let mut k: usize = 0;
        let mut found = false;
        while k < e.len()
            invariant_except_break
                !found,
            invariant
                0 <= k <= e.len(),
                ev == entry_views(e@),
                forall|j: int| 0 <= j < k ==> (#[trigger] ev[j]).0 != id,
            ensures
                0 <= k <= e.len(),
                ev == entry_views(e@),
                found ==> k < e.len() && ev[k as int].0 == id,
                !found ==> forall|j: int| 0 <= j < e.len() ==> (#[trigger] ev[j]).0 != id,
            decreases e.len() - k,
        {
            if e[k].0 == id {
                found = true;
                break ;
            }
            k = k + 1;
        }
        if found {
            proof {
                lemma_assoc_update(ev, k as int, c@);
            }
            e.set(k, (id, c));
            assert(entry_views(e@) =~= ev.update(k as int, (id, c@)));
        } else {
            proof {
                lemma_assoc_dom(ev, id);
                lemma_assoc_push(ev, id, c@);
            }
            e.push((id, c));
            assert(entry_views(e@) =~= ev.push((id, c@)));
        }
        i = i + 1;
    }
    assert(cv.take(cards.len() as int) =~= cv);
    e
}

/// Whether an index holds the identifier; its position if so.
fn find_id(e: &Vec<(u64, Card)>, id: u64) -> (r: Option<usize>)
    ensures
        match r {
            Some(k) => k < e@.len() && e@[k as int].0 == id,
            None => forall|j: int| 0 <= j < e@.len() ==> (#[trigger] e@[j]).0 != id,
        },
{
    let mut k: usize = 0;
    while k < e.len()
        invariant
            0 <= k <= e.len(),
            forall|j: int| 0 <= j < k ==> (#[trigger] e@[j]).0 != id,
        decreases e.len() - k,
    {
        if e[k].0 == id {
            return Some(k);
        }
        k = k + 1;
    }
    None
}

/// The cards of `a` whose identifiers `b` does not hold.
fn missing_from(a: &Vec<(u64, Card)>, b: &Vec<(u64, Card)>) -> (r: Vec<Card>)
    requires
        keys_distinct(entry_views(a@)),
        forall|k: int| 0 <= k < a@.len() ==> (#[trigger] a@[k]).0 == id_of(a@[k].1@),
    ensures
        keys_distinct(keyed(views(r@))),
        assoc_map(keyed(views(r@))) == assoc_map(entry_views(a@)).remove_keys(
            assoc_map(entry_views(b@)).dom(),
        ),
{
    let ghost av = entry_views(a@);
    let ghost bd = assoc_map(entry_views(b@)).dom();
    let mut r: Vec<Card> = Vec::new();
    assert(keyed(views(r@)) =~= seq![]);
    assert(assoc_map(av.take(0)).remove_keys(bd) =~= Map::<u64, CardView>::empty());
    let mut k: usize = 0;
    while k < a.len()
        invariant
            0 <= k <= a.len(),
            av == entry_views(a@),
            bd == assoc_map(entry_views(b@)).dom(),
            keys_distinct(av),
            forall|j: int| 0 <= j < a@.len() ==> (#[trigger] a@[j]).0 == id_of(a@[j].1@),
            keys_distinct(keyed(views(r@))),
            assoc_map(keyed(views(r@))) == assoc_map(av.take(k as int)).remove_keys(bd),
            forall|j: int| 0 <= j < r@.len() ==> exists|i: int| 0 <= i < k && (#[trigger] keyed(views(r@))[j]).0 == av[i].0,
        decreases a.len() - k,
    {
        let id = a[k].0;
        assert(av.take(k + 1) =~= av.take(k as int).push(av[k as int]));
        assert(av.take(k + 1).drop_last() =~= av.take(k as int));
        assert(av[k as int].0 == id);
        match find_id(b, id) {
            Some(j) => {
                proof {
                    lemma_assoc_dom(entry_views(b@), id);
                    assert(entry_views(b@)[j as int].0 == id);
                    assert(assoc_map(av.take(k + 1)).remove_keys(bd) =~= assoc_map(av.take(k as int)).remove_keys(bd));
                }
            },
            None => {
                let c = copy_card(&a[k].1);
                let ghost rv = keyed(views(r@));
                proof {
                    lemma_assoc_dom(entry_views(b@), id);
                    assert forall|i: int| 0 <= i < entry_views(b@).len() implies (#[trigger] entry_views(b@)[i]).0 != id by {
                        assert(b@[i].0 != id);
                    }
                    lemma_assoc_dom(rv, id);
                    if assoc_map(rv).contains_key(id) {
                        let j = choose|j: int| 0 <= j < rv.len() && (#[trigger] rv[j]).0 == id;
                        let i = choose|i: int| 0 <= i < k && (#[trigger] keyed(views(r@))[j]).0 == av[i].0;
                        assert(av[i].0 == av[k as int].0);
                    }
                    lemma_assoc_push(rv, id, c@);
                }
                r.push(c);
                assert(keyed(views(r@)) =~= rv.push((id, c@)));
                assert(assoc_map(av.take(k + 1)).remove_keys(bd) =~= assoc_map(av.take(k as int)).remove_keys(bd).insert(id, c@));
            },
        }
        k = k + 1;
    }
    assert(av.take(a.len() as int) =~= av);
    r
}

/// The changed pairs among the first `k` old entries.
pub open spec fn changed_upto(
    ov: Seq<(u64, CardView)>,
    nm: Map<u64, CardView>,
    k: int,
) -> Map<u64, (CardView, CardView)> {
    let om = assoc_map(ov);
    Map::new(
        |id: u64| assoc_map(ov.take(k)).contains_key(id) && nm.contains_key(id) && om[id] != nm[id],
        |id: u64| (om[id], nm[id]),
    )
}

/// The `(old, new)` pairs of identifiers in both indexes whose cards differ.
fn changed_pairs(a: &Vec<(u64, Card)>, b: &Vec<(u64, Card)>) -> (r: Vec<(Card, Card)>)
    requires
        keys_distinct(entry_views(a@)),
        keys_distinct(entry_views(b@)),
        forall|k: int| 0 <= k < a@.len() ==> (#[trigger] a@[k]).0 == id_of(a@[k].1@),
        forall|k: int| 0 <= k < b@.len() ==> (#[trigger] b@[k]).0 == id_of(b@[k].1@),
    ensures
        keys_distinct(pair_views(r@)),
        assoc_map(pair_views(r@)) == changed(assoc_map(entry_views(a@)), assoc_map(entry_views(b@))),
        forall|i: int| 0 <= i < r@.len() ==> id_of((#[trigger] r@[i]).0@) == id_of(r@[i].1@),
{
    let ghost av = entry_views(a@);
    let ghost bv = entry_views(b@);
    let ghost nm = assoc_map(bv);
    let mut r: Vec<(Card, Card)> = Vec::new();
    assert(pair_views(r@) =~= seq![]);
    assert(changed_upto(av, nm, 0) =~= Map::<u64, (CardView, CardView)>::empty());
    let mut k: usize = 0;
    while k < a.len()
        invariant
            0 <= k <= a.len(),
            av == entry_views(a@),
            bv == entry_views(b@),
            nm == assoc_map(bv),
            keys_distinct(av),
            keys_distinct(bv),
            forall|j: int| 0 <= j < a@.len() ==> (#[trigger] a@[j]).0 == id_of(a@[j].1@),
            forall|j: int| 0 <= j < b@.len() ==> (#[trigger] b@[j]).0 == id_of(b@[j].1@),
            keys_distinct(pair_views(r@)),
            assoc_map(pair_views(r@)) == changed_upto(av, nm, k as int),
            forall|j: int| 0 <= j < r@.len() ==> exists|i: int| 0 <= i < k && (#[trigger] pair_views(r@)[j]).0 == av[i].0,
            forall|i: int| 0 <= i < r@.len() ==> id_of((#[trigger] r@[i]).0@) == id_of(r@[i].1@),
        decreases a.len() - k,
    {
        let id = a[k].0;
        assert(av.take(k + 1).drop_last() =~= av.take(k as int));
        assert(av[k as int].0 == id);
        proof {
            lemma_assoc_get(av, k as int);
            lemma_assoc_dom(av.take(k as int), id);
            if assoc_map(av.take(k as int)).contains_key(id) {
                let i = choose|i: int| 0 <= i < k && (#[trigger] av.take(k as int)[i]).0 == id;
                assert(av[i].0 == av[k as int].0);
            }
        }
        match find_id(b, id) {
            Some(j) => {
                proof {
                    lemma_assoc_get(bv, j as int);
                    assert(bv[j as int].0 == id);
                }
                if !same_card(&a[k].1, &b[j].1) {
                    let o = copy_card(&a[k].1);
                    let n = copy_card(&b[j].1);
                    let ghost rv = pair_views(r@);
                    proof {
                        lemma_assoc_dom(rv, id);
                        if assoc_map(rv).contains_key(id) {
                            let jj = choose|jj: int| 0 <= jj < rv.len() && (#[trigger] rv[jj]).0 == id;
                            let i = choose|i: int| 0 <= i < k && (#[trigger] pair_views(r@)[jj]).0 == av[i].0;
                            assert(av[i].0 == av[k as int].0);
                        }
                        lemma_assoc_push(rv, id, (o@, n@));
                    }
                    r.push((o, n));
                    assert(pair_views(r@) =~= rv.push((id, (o@, n@))));
                    assert(changed_upto(av, nm, k + 1) =~= changed_upto(av, nm, k as int).insert(id, (o@, n@)));
                } else {
                    assert(changed_upto(av, nm, k + 1) =~= changed_upto(av, nm, k as int));
                }
            },
            None => {
                proof {
                    lemma_assoc_dom(bv, id);
                    assert forall|i: int| 0 <= i < bv.len() implies (#[trigger] bv[i]).0 != id by {
                        assert(b@[i].0 != id);
                    }
                }
                assert(changed_upto(av, nm, k + 1) =~= changed_upto(av, nm, k as int));
            },
        }
        k = k + 1;
    }
    assert(av.take(a.len() as int) =~= av);
    assert(changed_upto(av, nm, a.len() as int) =~= changed(assoc_map(av), nm));
    r
}

/// `d` is the diff from the cards `old` to the cards `new`: each list
/// without repeated identifiers; added are the new cards whose identifiers
/// the old set lacks, deleted the reverse, updated the `(old, new)` pairs
/// of identifiers in both whose cards differ.
pub open spec fn is_diff(d: DocumentDiff, old: Seq<CardView>, new: Seq<CardView>) -> bool {
    &&& keys_distinct(keyed(views(d.added@)))
    &&& by_id(views(d.added@)) == by_id(new).remove_keys(by_id(old).dom())
    &&& keys_distinct(keyed(views(d.deleted@)))
    &&& by_id(views(d.deleted@)) == by_id(old).remove_keys(by_id(new).dom())
    &&& keys_distinct(pair_views(d.updated@))
    &&& assoc_map(pair_views(d.updated@)) == changed(by_id(old), by_id(new))
    &&& forall|i: int|
        0 <= i < d.updated@.len() ==> id_of((#[trigger] d.updated@[i]).0@) == id_of(d.updated@[i].1@)
}

/// An entry list without repeated keys whose map is empty is empty.
proof fn lemma_distinct_empty<V>(e: Seq<(u64, V)>)
    requires
        keys_distinct(e),
        assoc_map(e) == Map::<u64, V>::empty(),
    ensures
        e.len() == 0,
{
    if e.len() > 0 {
        lemma_assoc_get(e, 0);
    }
}

/// A set of cards diffed against itself has nothing added, deleted or
/// updated.
pub proof fn diff_with_itself_is_empty(cards: Seq<CardView>, d: DocumentDiff)
    requires
        is_diff(d, cards, cards),
    ensures
        d.added@.len() == 0,
        d.deleted@.len() == 0,
        d.updated@.len() == 0,
{
    let m = by_id(cards);
    assert(m.remove_keys(m.dom()) =~= Map::<u64, CardView>::empty());
    assert(changed(m, m) =~= Map::<u64, (CardView, CardView)>::empty());
    lemma_distinct_empty(keyed(views(d.added@)));
    lemma_distinct_empty(keyed(views(d.deleted@)));
    lemma_distinct_empty(pair_views(d.updated@));
}

/// What a diff holds, by identifier: the added cards are those of the new
/// set whose identifiers the old set lacks, the deleted ones the reverse.
/// Diffing the other way round swaps added and deleted (the same cards, in
/// some order) and turns each updated pair around.
pub proof fn diff_ids_and_reverse(a: Seq<CardView>, b: Seq<CardView>, d1: DocumentDiff, d2: DocumentDiff)
    requires
        is_diff(d1, a, b),
        is_diff(d2, b, a),
    ensures
        by_id(views(d1.added@)).dom() == by_id(b).dom().difference(by_id(a).dom()),
        by_id(views(d1.deleted@)).dom() == by_id(a).dom().difference(by_id(b).dom()),
        by_id(views(d1.added@)) == by_id(views(d2.deleted@)),
        by_id(views(d1.deleted@)) == by_id(views(d2.added@)),
        views(d1.added@).to_multiset() == views(d2.deleted@).to_multiset(),
        views(d1.deleted@).to_multiset() == views(d2.added@).to_multiset(),
        assoc_map(pair_views(d2.updated@)).dom() == assoc_map(pair_views(d1.updated@)).dom(),
        forall|k: u64|
            #[trigger] assoc_map(pair_views(d2.updated@)).contains_key(k) ==> assoc_map(pair_views(d2.updated@))[k]
                == (assoc_map(pair_views(d1.updated@))[k].1, assoc_map(pair_views(d1.updated@))[k].0),
{
    let ma = by_id(a);
    let mb = by_id(b);
    assert(mb.remove_keys(ma.dom()).dom() =~= mb.dom().difference(ma.dom()));
    assert(ma.remove_keys(mb.dom()).dom() =~= ma.dom().difference(mb.dom()));
    assert(changed(mb, ma).dom() =~= changed(ma, mb).dom());
    lemma_same_cards(views(d1.added@), views(d2.deleted@));
    lemma_same_cards(views(d1.deleted@), views(d2.added@));
}

/// A card of the map by identifier is a card of the set, under its own
/// identifier.
proof fn lemma_by_id_value(s: Seq<CardView>, k: u64)
    requires
        by_id(s).contains_key(k),
    ensures
        s.contains(by_id(s)[k]),
        id_of(by_id(s)[k]) == k,
{
    crate::assoc::lemma_assoc_value(keyed(s), k);
    let i = choose|i: int| 0 <= i < keyed(s).len() && #[trigger] keyed(s)[i] == (k, by_id(s)[k]);
    assert(s[i] == by_id(s)[k]);
}

/// Two card lists without repeated identifiers that map the same
/// identifiers to the same cards hold the same cards, in some order.
proof fn lemma_same_cards(va: Seq<CardView>, vb: Seq<CardView>)
    requires
        keys_distinct(keyed(va)),
        keys_distinct(keyed(vb)),
        by_id(va) == by_id(vb),
    ensures
        va.to_multiset() == vb.to_multiset(),
{
    broadcast use vstd::seq_lib::group_to_multiset_ensures;

    assert(va.no_duplicates()) by {
        assert forall|i: int, j: int| 0 <= i < va.len() && 0 <= j < va.len() && i != j implies va[i] != va[j] by {
            if i < j {
                assert(keyed(va)[i].0 != keyed(va)[j].0);
            } else {
                assert(keyed(va)[j].0 != keyed(va)[i].0);
            }
        }
    }
    assert(vb.no_duplicates()) by {
        assert forall|i: int, j: int| 0 <= i < vb.len() && 0 <= j < vb.len() && i != j implies vb[i] != vb[j] by {
            if i < j {
                assert(keyed(vb)[i].0 != keyed(vb)[j].0);
            } else {
                assert(keyed(vb)[j].0 != keyed(vb)[i].0);
            }
        }
    }
    va.lemma_multiset_has_no_duplicates();
    vb.lemma_multiset_has_no_duplicates();
    assert forall|c: CardView| va.contains(c) <==> vb.contains(c) by {
        if va.contains(c) {
            let i = choose|i: int| 0 <= i < va.len() && va[i] == c;
            crate::assoc::lemma_assoc_get(keyed(va), i);
            lemma_by_id_value(vb, id_of(c));
        }
        if vb.contains(c) {
            let i = choose|i: int| 0 <= i < vb.len() && vb[i] == c;
            crate::assoc::lemma_assoc_get(keyed(vb), i);
            lemma_by_id_value(va, id_of(c));
        }
    }
    assert forall|c: CardView| va.to_multiset().count(c) == vb.to_multiset().count(c) by {
        if va.contains(c) {
            assert(va.to_multiset().contains(c) && vb.to_multiset().contains(c));
        }
    }
    assert(va.to_multiset() =~= vb.to_multiset());
}

/// The cards of a diff come from the documents: each added card is a card
/// of the new set, each deleted card one of the old set, and no identifier
/// occurs twice among them. When no two different cards of the sets share
/// an identifier, nothing is updated.
pub proof fn diff_cards_come_from_documents(old: Seq<CardView>, new: Seq<CardView>, d: DocumentDiff)
    requires
        is_diff(d, old, new),
    ensures
        keys_distinct(keyed(views(d.added@))),
        keys_distinct(keyed(views(d.deleted@))),
        forall|i: int| 0 <= i < d.added@.len() ==> new.contains(#[trigger] d.added@[i]@),
        forall|i: int| 0 <= i < d.deleted@.len() ==> old.contains(#[trigger] d.deleted@[i]@),
        (forall|c1: CardView, c2: CardView|
            (old.contains(c1) || new.contains(c1)) && (old.contains(c2) || new.contains(c2)) && #[trigger] id_of(c1)
                == #[trigger] id_of(c2) ==> c1 == c2) ==> d.updated@.len() == 0,
{
    assert forall|i: int| 0 <= i < d.added@.len() implies new.contains(#[trigger] d.added@[i]@) by {
        let e = keyed(views(d.added@));
        crate::assoc::lemma_assoc_get(e, i);
        let k = e[i].0;
        assert(e[i].1 == d.added@[i]@);
        assert(by_id(new).contains_key(k));
        lemma_by_id_value(new, k);
    }
    assert forall|i: int| 0 <= i < d.deleted@.len() implies old.contains(#[trigger] d.deleted@[i]@) by {
        let e = keyed(views(d.deleted@));
        crate::assoc::lemma_assoc_get(e, i);
        let k = e[i].0;
        assert(e[i].1 == d.deleted@[i]@);
        assert(by_id(old).contains_key(k));
        lemma_by_id_value(old, k);
    }
    if forall|c1: CardView, c2: CardView|
        (old.contains(c1) || new.contains(c1)) && (old.contains(c2) || new.contains(c2)) && #[trigger] id_of(c1)
            == #[trigger] id_of(c2) ==> c1 == c2 {
        let mo = by_id(old);
        let mn = by_id(new);
        assert forall|k: u64| !#[trigger] changed(mo, mn).contains_key(k) by {
            if mo.contains_key(k) && mn.contains_key(k) {
                lemma_by_id_value(old, k);
                lemma_by_id_value(new, k);
                assert(id_of(mo[k]) == id_of(mn[k]));
            }
        }
        assert(changed(mo, mn) =~= Map::<u64, (CardView, CardView)>::empty());
        lemma_distinct_empty(pair_views(d.updated@));
        assert(pair_views(d.updated@).len() == d.updated@.len());
    }
}

impl DocumentDiff {
    /// The diff between two document sets, cards matched by identifier:
    /// added are the new set's cards whose identifiers the old set lacks,
    /// deleted the reverse, updated the pairs whose cards differ.
    pub fn compute(old: &DocumentSet, new: &DocumentSet) -> (r: DocumentDiff)
        ensures
            is_diff(r, views(old.cards@), views(new.cards@)),
    {
        let old_index = index_by_id(&old.cards);
        let new_index = index_by_id(&new.cards);
        let added = missing_from(&new_index, &old_index);
        let deleted = missing_from(&old_index, &new_index);
        let updated = changed_pairs(&old_index, &new_index);
        DocumentDiff { added, deleted, updated }
    }
}

/// The value of an operation.
pub enum OperationView {
    Add(CardView),
    Delete(CardId),
    Update(CardId, CardView),
}

impl View for Operation {
    type V = OperationView;

    open spec fn view(&self) -> OperationView {
        match self {
            Operation::Add(c) => OperationView::Add(c@),
            Operation::Delete(id) => OperationView::Delete(*id),
            Operation::Update(id, c) => OperationView::Update(*id, c@),
        }
    }
}

/// The values of a sequence of operations.
pub open spec fn op_views(s: Seq<Operation>) -> Seq<OperationView> {
    s.map_values(|o: Operation| o@)
}

/// The operations of a diff: additions, then deletions by identifier, then
/// updates of the new cards under their identifiers.
pub open spec fn diff_operations(
    added: Seq<CardView>,
    deleted: Seq<CardView>,
    updated: Seq<(CardView, CardView)>,
) -> Seq<OperationView> {
    added.map_values(|c: CardView| OperationView::Add(c)) + deleted.map_values(
        |c: CardView| OperationView::Delete(CardId(id_of(c))),
    ) + updated.map_values(
        |p: (CardView, CardView)| OperationView::Update(CardId(id_of(p.1)), p.1),
    )
}

/// The values of the updated pairs.
pub open spec fn pairs_of(s: Seq<(Card, Card)>) -> Seq<(CardView, CardView)> {
    s.map_values(|p: (Card, Card)| (p.0@, p.1@))
}

impl DocumentDiff {
    /// The operations that apply this diff.
    pub fn to_operations(&self) -> (r: Vec<Operation>)
        ensures
            op_views(r@) == diff_operations(
                views(self.added@),
                views(self.deleted@),
                pairs_of(self.updated@),
            ),
    {
        let ghost target = diff_operations(
            views(self.added@),
            views(self.deleted@),
            pairs_of(self.updated@),
        );
        let ghost a = views(self.added@).map_values(|c: CardView| OperationView::Add(c));
        let ghost d = views(self.deleted@).map_values(
            |c: CardView| OperationView::Delete(CardId(id_of(c))),
        );
        let ghost u = pairs_of(self.updated@).map_values(
            |p: (CardView, CardView)| OperationView::Update(CardId(id_of(p.1)), p.1),
        );
        assert(target == a + d + u);
        let mut ops: Vec<Operation> = Vec::new();
        let mut i: usize = 0;
        while i < self.added.len()
            invariant
                0 <= i <= self.added.len(),
                a == views(self.added@).map_values(|c: CardView| OperationView::Add(c)),
                op_views(ops@) == a.take(i as int),
            decreases self.added.len() - i,
        {
            let o = Operation::Add(copy_card(&self.added[i]));
            let ghost b = ops@;
            ops.push(o);
            assert(op_views(ops@) =~= op_views(b).push(o@));
            i = i + 1;
            assert(a.take(i as int) =~= a.take(i - 1).push(a[i - 1]));
        }
        assert(a.take(self.added.len() as int) =~= a);
        let mut i: usize = 0;
        while i < self.deleted.len()
            invariant
                0 <= i <= self.deleted.len(),
                d == views(self.deleted@).map_values(
                    |c: CardView| OperationView::Delete(CardId(id_of(c))),
                ),
                op_views(ops@) == a + d.take(i as int),
            decreases self.deleted.len() - i,
        {
            let o = Operation::Delete(self.deleted[i].id());
            let ghost b = ops@;
            ops.push(o);
            assert(op_views(ops@) =~= op_views(b).push(o@));
            i = i + 1;
            assert(a + d.take(i as int) =~= (a + d.take(i - 1)).push(d[i - 1]));
        }
        assert(d.take(self.deleted.len() as int) =~= d);
        let mut i: usize = 0;
        while i < self.updated.len()
            invariant
                0 <= i <= self.updated.len(),
                u == pairs_of(self.updated@).map_values(
                    |p: (CardView, CardView)| OperationView::Update(CardId(id_of(p.1)), p.1),
                ),
                op_views(ops@) == a + d + u.take(i as int),
            decreases self.updated.len() - i,
        {
            let new = &self.updated[i].1;
            let o = Operation::Update(new.id(), copy_card(new));
            let ghost b = ops@;
            ops.push(o);
            assert(op_views(ops@) =~= op_views(b).push(o@));
            i = i + 1;
            assert(a + d + u.take(i as int) =~= (a + d + u.take(i - 1)).push(u[i - 1]));
        }
        assert(u.take(self.updated.len() as int) =~= u);
        ops
    }
}

} // verus!
