//! Decks by name: a list of `(name, cards)` entries with distinct names,
//! seen as a map.
use crate::anki_wrapper::types::{copy_info, info_views, CardId, CardInfo, CardInfoView, CardType, NoteId};
use crate::text::chars_eq;
use crate::text::chars_of;
use vstd::prelude::*;

verus! {

/// The map of a list of entries (a later entry wins; names are distinct).
pub open spec fn entries_map(e: Seq<(Seq<char>, Seq<CardInfoView>)>) -> Map<Seq<char>, Seq<CardInfoView>>
    decreases e.len(),
{
    if e.len() == 0 {
        Map::empty()
    } else {
        entries_map(e.drop_last()).insert(e.last().0, e.last().1)
    }
}

/// No two entries share a name.
pub open spec fn names_distinct(e: Seq<(Seq<char>, Seq<CardInfoView>)>) -> bool {
    forall|i: int, j: int| 0 <= i < j < e.len() ==> (#[trigger] e[i]).0 != (#[trigger] e[j]).0
}

pub proof fn lemma_entries_map_get(e: Seq<(Seq<char>, Seq<CardInfoView>)>, k: int)
    requires
        names_distinct(e),
        0 <= k < e.len(),
    ensures
        entries_map(e).contains_key(e[k].0),
        entries_map(e)[e[k].0] == e[k].1,
    decreases e.len(),
{
    if k < e.len() - 1 {
        lemma_entries_map_get(e.drop_last(), k);
    }
}

pub proof fn lemma_entries_map_dom(e: Seq<(Seq<char>, Seq<CardInfoView>)>, n: Seq<char>)
    ensures
        entries_map(e).contains_key(n) <==> exists|k: int| 0 <= k < e.len() && (#[trigger] e[k]).0 == n,
    decreases e.len(),
{
    if e.len() > 0 {
        lemma_entries_map_dom(e.drop_last(), n);
        if entries_map(e.drop_last()).contains_key(n) {
            let k = choose|k: int| 0 <= k < e.len() - 1 && (#[trigger] e.drop_last()[k]).0 == n;
            assert(e[k].0 == n);
        }
        if exists|k: int| 0 <= k < e.len() && (#[trigger] e[k]).0 == n {
            let k = choose|k: int| 0 <= k < e.len() && (#[trigger] e[k]).0 == n;
            if k < e.len() - 1 {
                assert(e.drop_last()[k].0 == n);
            }
        }
    }
}

pub proof fn lemma_entries_map_update(
    e: Seq<(Seq<char>, Seq<CardInfoView>)>,
    k: int,
    v: Seq<CardInfoView>,
)
    requires
        names_distinct(e),
        0 <= k < e.len(),
    ensures
        names_distinct(e.update(k, (e[k].0, v))),
        entries_map(e.update(k, (e[k].0, v))) == entries_map(e).insert(e[k].0, v),
    decreases e.len(),
{
    let e2 = e.update(k, (e[k].0, v));
    assert(names_distinct(e2)) by {
        assert forall|i: int, j: int| 0 <= i < j < e2.len() implies (#[trigger] e2[i]).0 != (
        #[trigger] e2[j]).0 by {
            assert(e2[i].0 == e[i].0);
            assert(e2[j].0 == e[j].0);
        }
    }
    if k == e.len() - 1 {
        assert(e2.drop_last() =~= e.drop_last());
        assert(entries_map(e2) =~= entries_map(e).insert(e[k].0, v));
    } else {
        lemma_entries_map_update(e.drop_last(), k, v);
        assert(e2.drop_last() =~= e.drop_last().update(k, (e[k].0, v)));
        assert(e.last().0 != e[k].0);
        assert(entries_map(e2) =~= entries_map(e).insert(e[k].0, v));
    }
}

pub proof fn lemma_entries_map_remove(e: Seq<(Seq<char>, Seq<CardInfoView>)>, k: int)
    requires
        names_distinct(e),
        0 <= k < e.len(),
    ensures
        names_distinct(e.remove(k)),
        entries_map(e.remove(k)) == entries_map(e).remove(e[k].0),
    decreases e.len(),
{
    let e2 = e.remove(k);
    assert(names_distinct(e2)) by {
        assert forall|i: int, j: int| 0 <= i < j < e2.len() implies (#[trigger] e2[i]).0 != (
        #[trigger] e2[j]).0 by {
            let ii = if i < k { i } else { i + 1 };
            let jj = if j < k { j } else { j + 1 };
            assert(e2[i] == e[ii]);
            assert(e2[j] == e[jj]);
        }
    }
    if k == e.len() - 1 {
        assert(e2 =~= e.drop_last());
        lemma_entries_map_dom(e.drop_last(), e[k].0);
        assert(!entries_map(e.drop_last()).contains_key(e[k].0));
        assert(entries_map(e2) =~= entries_map(e).remove(e[k].0));
    } else {
        lemma_entries_map_remove(e.drop_last(), k);
        assert(e2.drop_last() =~= e.drop_last().remove(k));
        assert(e2.last() == e.last());
        assert(e.last().0 != e[k].0);
        assert(entries_map(e2) =~= entries_map(e).remove(e[k].0));
    }
}

pub proof fn lemma_entries_map_push(e: Seq<(Seq<char>, Seq<CardInfoView>)>, n: Seq<char>, v: Seq<CardInfoView>)
    requires
        names_distinct(e),
        !entries_map(e).contains_key(n),
    ensures
        names_distinct(e.push((n, v))),
        entries_map(e.push((n, v))) == entries_map(e).insert(n, v),
{
    lemma_entries_map_dom(e, n);
    let e2 = e.push((n, v));
    assert(e2.drop_last() =~= e);
    assert(names_distinct(e2)) by {
        assert forall|i: int, j: int| 0 <= i < j < e2.len() implies (#[trigger] e2[i]).0 != (
        #[trigger] e2[j]).0 by {
            if j == e.len() {
                assert(e2[i] == e[i]);
            } else {
                assert(e2[i] == e[i]);
                assert(e2[j] == e[j]);
            }
        }
    }
}

/// Decks by name.
pub struct DeckMap {
    entries: Vec<(String, Vec<CardInfo>)>,
}

impl DeckMap {
    /// The entries as values.
    pub closed spec fn entry_views(&self) -> Seq<(Seq<char>, Seq<CardInfoView>)> {
        self.entries@.map_values(|e: (String, Vec<CardInfo>)| (e.0@, info_views(e.1@)))
    }

    /// The decks, each with its cards.
    pub open spec fn view(&self) -> Map<Seq<char>, Seq<CardInfoView>> {
        entries_map(self.entry_views())
    }

    /// Deck names are distinct.
    pub open spec fn wf(&self) -> bool {
        names_distinct(self.entry_views())
    }

    /// No decks.
    pub fn new() -> (r: DeckMap)
        ensures
            r.wf(),
            r.view() == Map::<Seq<char>, Seq<CardInfoView>>::empty(),
    {
        let r = DeckMap { entries: Vec::new() };
        assert(r.entry_views() =~= seq![]);
        r
    }

    /// The position of a deck among the entries.
    fn find(&self, name: &str) -> (r: Option<usize>)
        requires
            self.wf(),
        ensures
            match r {
                Some(k) => k < self.entries.len() && self.entry_views()[k as int].0 == name@,
                None => !self.view().contains_key(name@),
            },
    {
        let n = chars_of(name);
        let mut k: usize = 0;
        while k < self.entries.len()
            invariant
                0 <= k <= self.entries.len(),
                n@ == name@,
                forall|j: int| 0 <= j < k ==> (#[trigger] self.entry_views()[j]).0 != name@,
            decreases self.entries.len() - k,
        {
            let e = chars_of(self.entries[k].0.as_str());
            if chars_eq(&e, &n) {
                return Some(k);
            }
            k = k + 1;
        }
        proof {
            lemma_entries_map_dom(self.entry_views(), name@);
        }
        None
    }

    /// The cards of a deck, if it exists.
    pub fn get(&self, name: &str) -> (r: Option<&Vec<CardInfo>>)
        requires
            self.wf(),
        ensures
            match r {
                Some(v) => self.view().contains_key(name@) && info_views(v@) == self.view()[name@],
                None => !self.view().contains_key(name@),
            },
    {
        match self.find(name) {
            Some(k) => {
                proof {
                    lemma_entries_map_get(self.entry_views(), k as int);
                }
                Some(&self.entries[k].1)
            },
            None => None,
        }
    }

    /// Whether a deck exists.
    pub fn contains_key(&self, name: &str) -> (r: bool)
        requires
            self.wf(),
        ensures
            r == self.view().contains_key(name@),
    {
        match self.find(name) {
            Some(k) => {
                proof {
                    lemma_entries_map_get(self.entry_views(), k as int);
                }
                true
            },
            None => false,
        }
    }

    /// Creates a deck with no cards, if it does not exist.
    pub fn ensure(&mut self, name: &str)
        requires
            old(self).wf(),
        ensures
            final(self).wf(),
            final(self).view() == (if old(self).view().contains_key(name@) {
                old(self).view()
            } else {
                old(self).view().insert(name@, seq![])
            }),
    {
        match self.find(name) {
            Some(k) => {
                proof {
                    lemma_entries_map_get(self.entry_views(), k as int);
                }
            },
            None => {
                let ghost ev = self.entry_views();
                let n = crate::text::string_of(&chars_of(name));
                let empty: Vec<CardInfo> = Vec::new();
                assert(info_views(empty@) =~= seq![]);
                self.entries.push((n, empty));
                assert(self.entry_views() =~= ev.push((name@, seq![])));
                proof {
                    lemma_entries_map_push(ev, name@, seq![]);
                }
            },
        }
    }

    /// Removes a deck; whether it existed.
    pub fn remove(&mut self, name: &str) -> (r: bool)
        requires
            old(self).wf(),
        ensures
            final(self).wf(),
            r == old(self).view().contains_key(name@),
            final(self).view() == old(self).view().remove(name@),
    {
        match self.find(name) {
            Some(k) => {
                let ghost ev = self.entry_views();
                proof {
                    lemma_entries_map_get(ev, k as int);
                    lemma_entries_map_remove(ev, k as int);
                }
                self.entries.remove(k);
                assert(self.entry_views() =~= ev.remove(k as int));
                true
            },
            None => {
                assert(old(self).view().remove(name@) =~= old(self).view());
                false
            },
        }
    }

    /// Replaces the cards of the deck at position `k`.
    fn replace_at(&mut self, k: usize, cards: Vec<CardInfo>) -> (old_cards: Vec<CardInfo>)
        requires
            old(self).wf(),
            k < old(self).entries.len(),
        ensures
            final(self).wf(),
            final(self).entries.len() == old(self).entries.len(),
            info_views(old_cards@) == old(self).entry_views()[k as int].1,
            final(self).entry_views() == old(self).entry_views().update(
                k as int,
                (old(self).entry_views()[k as int].0, info_views(cards@)),
            ),
            final(self).view() == old(self).view().insert(
                old(self).entry_views()[k as int].0,
                info_views(cards@),
            ),
    {
        let ghost ev = self.entry_views();
        proof {
            lemma_entries_map_update(ev, k as int, info_views(cards@));
        }
        let (n, old_cards) = self.entries.remove(k);
        self.entries.insert(k, (n, cards));
        assert(self.entry_views() =~= ev.update(k as int, (ev[k as int].0, info_views(cards@))));
        old_cards
    }

    /// Replaces the cards of an existing deck; whether it existed.
    pub fn set_cards(&mut self, name: &str, cards: Vec<CardInfo>) -> (r: bool)
        requires
            old(self).wf(),
        ensures
            final(self).wf(),
            r == old(self).view().contains_key(name@),
            final(self).view() == (if r {
                old(self).view().insert(name@, info_views(cards@))
            } else {
                old(self).view()
            }),
    {
        match self.find(name) {
            Some(k) => {
                proof {
                    lemma_entries_map_get(self.entry_views(), k as int);
                }
                self.replace_at(k, cards);
                true
            },
            None => false,
        }
    }

    /// Appends cards to a deck, creating it if needed.
    pub fn append_cards(&mut self, name: &str, more: Vec<CardInfo>)
        requires
            old(self).wf(),
        ensures
            final(self).wf(),
            final(self).view() == old(self).view().insert(
                name@,
                (if old(self).view().contains_key(name@) {
                    old(self).view()[name@]
                } else {
                    seq![]
                }) + info_views(more@),
            ),
    {
        self.ensure(name);
        let ghost mid = self.view();
        match self.find(name) {
            Some(k) => {
                proof {
                    lemma_entries_map_get(self.entry_views(), k as int);
                }
                let mut cards = self.replace_at(k, Vec::new());
                let ghost cb = info_views(cards@);
                let mut i: usize = 0;
                while i < more.len()
                    invariant
                        0 <= i <= more.len(),
                        info_views(cards@) == cb + info_views(more@).take(i as int),
                    decreases more.len() - i,
                {
                    let c = copy_info(&more[i]);
                    let ghost b = cards@;
                    cards.push(c);
                    assert(info_views(cards@) =~= info_views(b).push(c@));
                    i = i + 1;
                    assert(info_views(cards@) =~= cb + info_views(more@).take(i as int));
                }
                assert(info_views(more@).take(more.len() as int) =~= info_views(more@));
                self.replace_at(k, cards);
                assert(self.view() =~= old(self).view().insert(
                    name@,
                    (if old(self).view().contains_key(name@) {
                        old(self).view()[name@]
                    } else {
                        seq![]
                    }) + info_views(more@),
                ));
            },
            None => {},
        }
    }

    /// The deck names, in creation order.
    pub fn names(&self) -> (r: Vec<String>)
        requires
            self.wf(),
        ensures
            r@.len() == self.view().dom().len(),
            forall|i: int| 0 <= i < r@.len() ==> self.view().contains_key(#[trigger] r@[i]@),
            forall|i: int, j: int| 0 <= i < j < r@.len() ==> (#[trigger] r@[i])@ != (#[trigger] r@[j])@,
            forall|n: Seq<char>| #[trigger] self.view().contains_key(n) ==> exists|i: int| 0 <= i < r@.len() && r@[i]@ == n,
    {
        let ghost ev = self.entry_views();
        let mut r: Vec<String> = Vec::new();
        let mut k: usize = 0;
        while k < self.entries.len()
            invariant
                0 <= k <= self.entries.len(),
                ev == self.entry_views(),
                names_distinct(ev),
                r@.len() == k,
                forall|i: int| 0 <= i < k ==> (#[trigger] r@[i])@ == ev[i].0,
            decreases self.entries.len() - k,
        {
            r.push(self.entries[k].0.clone());
            k = k + 1;
        }
        proof {
            assert forall|i: int| 0 <= i < r@.len() implies self.view().contains_key(#[trigger] r@[i]@) by {
                lemma_entries_map_get(ev, i);
            }
            assert forall|n: Seq<char>| #[trigger] self.view().contains_key(n) implies exists|i: int| 0 <= i < r@.len() && r@[i]@ == n by {
                lemma_entries_map_dom(ev, n);
                let i = choose|i: int| 0 <= i < ev.len() && (#[trigger] ev[i]).0 == n;
                assert(r@[i]@ == n);
            }
            lemma_names_card(ev);
        }
        r
    }

    /// Removes the cards of a note from every deck; whether any was removed.
    pub fn remove_note(&mut self, note_id: NoteId) -> (found: bool)
        requires
            old(self).wf(),
        ensures
            final(self).wf(),
            final(self).view() == without_note(old(self).view(), note_id),
            found == note_in(old(self).view(), note_id),
    {
        let ghost ev = self.entry_views();
        let ghost f = |v: Seq<CardInfoView>| v.filter(not_of_note(note_id));
        let mut found = false;
        let mut k: usize = 0;
        while k < self.entries.len()
            invariant
                0 <= k <= self.entries.len(),
                self.entries.len() == ev.len(),
                names_distinct(ev),
                self.wf(),
                f == (|v: Seq<CardInfoView>| v.filter(not_of_note(note_id))),
                forall|j: int| 0 <= j < ev.len() ==> (#[trigger] self.entry_views()[j]).0 == ev[j].0,
                forall|j: int| 0 <= j < k ==> (#[trigger] self.entry_views()[j]).1 == f(ev[j].1),
                forall|j: int| k <= j < ev.len() ==> (#[trigger] self.entry_views()[j]).1 == ev[j].1,
                found <==> exists|j: int, i: int|
                    0 <= j < k && 0 <= i < ev[j].1.len() && (#[trigger] ev[j].1[i]).note_id
                        == note_id,
            decreases self.entries.len() - k,
        {
            let ghost before = self.entry_views();
            let cards = self.replace_at(k, Vec::new());
            proof {
                lemma_entries_map_get(ev, k as int);
            }
            let mut kept: Vec<CardInfo> = Vec::new();
            let mut i: usize = 0;
            let mut here = false;
            while i < cards.len()
                invariant
                    0 <= i <= cards.len(),
                    info_views(kept@) == info_views(cards@).take(i as int).filter(not_of_note(note_id)),
                    here <==> exists|ii: int| 0 <= ii < i && (#[trigger] info_views(cards@)[ii]).note_id == note_id,
                decreases cards.len() - i,
            {
                let ghost tk = info_views(cards@).take(i as int);
                assert(info_views(cards@).take(i + 1) =~= tk.push(cards[i as int]@));
                proof {
                    tk.lemma_filter_push(cards[i as int]@, not_of_note(note_id));
                }
                if cards[i].note_id != note_id {
                    let c = copy_info(&cards[i]);
                    let ghost b = kept@;
                    kept.push(c);
                    assert(info_views(kept@) =~= info_views(b).push(c@));
                } else {
                    here = true;
                    assert(info_views(cards@)[i as int].note_id == note_id);
                }
                i = i + 1;
            }
            assert(info_views(cards@).take(cards.len() as int) =~= info_views(cards@));
            assert(info_views(cards@) == ev[k as int].1);
            self.replace_at(k, kept);
            if here {
                found = true;
            }
            k = k + 1;
        }
        proof {
            let ev2 = self.entry_views();
            assert(ev2 =~= ev.map_values(|e: (Seq<char>, Seq<CardInfoView>)| (e.0, f(e.1))));
            lemma_entries_map_transform(ev, f);
            assert(self.view() =~= without_note(old(self).view(), note_id));
            if found {
                let (j, i) = choose|j: int, i: int|
                    0 <= j < ev.len() && 0 <= i < ev[j].1.len() && (#[trigger] ev[j].1[i]).note_id
                        == note_id;
                lemma_entries_map_get(ev, j);
            }
            if note_in(old(self).view(), note_id) {
                let (n, i) = choose|n: Seq<char>, i: int|
                    old(self).view().contains_key(n) && 0 <= i < old(self).view()[n].len() && (
                    #[trigger] old(self).view()[n][i]).note_id == note_id;
                lemma_entries_map_dom(ev, n);
                let j = choose|j: int| 0 <= j < ev.len() && (#[trigger] ev[j]).0 == n;
                lemma_entries_map_get(ev, j);
                assert(ev[j].1[i].note_id == note_id);
            }
        }
        found
    }

    /// The note of the first card with the id, if some deck holds one.
    pub fn note_of_card(&self, id: CardId) -> (r: Option<NoteId>)
        requires
            self.wf(),
        ensures
            match r {
                Some(n) => card_with_note(self.view(), id, n),
                None => !card_in(self.view(), id),
            },
    {
        let ghost ev = self.entry_views();
        let mut k: usize = 0;
        while k < self.entries.len()
            invariant
                0 <= k <= self.entries.len(),
                ev == self.entry_views(),
                names_distinct(ev),
                forall|j: int, i: int|
                    0 <= j < k && 0 <= i < ev[j].1.len() ==> (#[trigger] ev[j].1[i]).id != id,
            decreases self.entries.len() - k,
        {
            let cards = &self.entries[k].1;
            let mut i: usize = 0;
            while i < cards.len()
                invariant
                    0 <= i <= cards.len(),
                    ev == self.entry_views(),
                    cards == &self.entries[k as int].1,
                    k < self.entries.len(),
                    names_distinct(ev),
                    forall|ii: int| 0 <= ii < i ==> (#[trigger] ev[k as int].1[ii]).id != id,
                decreases cards.len() - i,
            {
                assert(ev[k as int].1[i as int] == cards[i as int]@);
                if cards[i].id == id {
                    proof {
                        lemma_entries_map_get(ev, k as int);
                        assert(self.view()[ev[k as int].0][i as int].id == id);
                    }
                    return Some(cards[i].note_id);
                }
                i = i + 1;
            }
            k = k + 1;
        }
        proof {
            if card_in(self.view(), id) {
                let (n, i) = choose|n: Seq<char>, i: int|
                    self.view().contains_key(n) && 0 <= i < self.view()[n].len() && (
                    #[trigger] self.view()[n][i]).id == id;
                lemma_entries_map_dom(ev, n);
                let j = choose|j: int| 0 <= j < ev.len() && (#[trigger] ev[j]).0 == n;
                lemma_entries_map_get(ev, j);
                assert(ev[j].1[i].id == id);
            }
        }
        None
    }

    /// Gives every card of a note the type and fields.
    pub fn set_note(&mut self, note_id: NoteId, card_type: CardType, fields: &Vec<String>)
        requires
            old(self).wf(),
        ensures
            final(self).wf(),
            final(self).view() == with_note_set(
                old(self).view(),
                note_id,
                card_type,
                fields.deep_view(),
            ),
    {
        let ghost ev = self.entry_views();
        let ghost f = |v: Seq<CardInfoView>| v.map_values(set_card(note_id, card_type, fields.deep_view()));
        let mut k: usize = 0;
        while k < self.entries.len()
            invariant
                0 <= k <= self.entries.len(),
                self.entries.len() == ev.len(),
                names_distinct(ev),
                self.wf(),
                f == (|v: Seq<CardInfoView>| v.map_values(set_card(note_id, card_type, fields.deep_view()))),
                forall|j: int| 0 <= j < ev.len() ==> (#[trigger] self.entry_views()[j]).0 == ev[j].0,
                forall|j: int| 0 <= j < k ==> (#[trigger] self.entry_views()[j]).1 == f(ev[j].1),
                forall|j: int| k <= j < ev.len() ==> (#[trigger] self.entry_views()[j]).1 == ev[j].1,
            decreases self.entries.len() - k,
        {
            let mut cards = self.replace_at(k, Vec::new());
            let ghost cv = info_views(cards@);
            let mut i: usize = 0;
            while i < cards.len()
                invariant
                    0 <= i <= cards.len(),
                    cards.len() == cv.len(),
                    forall|ii: int| 0 <= ii < i ==> (#[trigger] info_views(cards@)[ii]) == set_card(note_id, card_type, fields.deep_view())(cv[ii]),
                    forall|ii: int| i <= ii < cv.len() ==> (#[trigger] info_views(cards@)[ii]) == cv[ii],
                decreases cards.len() - i,
            {
                let ghost b = info_views(cards@);
                assert(b[i as int] == cv[i as int]);
                if cards[i].note_id == note_id {
                    let c = CardInfo {
                        id: cards[i].id,
                        note_id: cards[i].note_id,
                        card_type,
                        fields: crate::anki_wrapper::types::copy_strings(fields),
                    };
                    cards.set(i, c);
                    assert(info_views(cards@) =~= b.update(i as int, c@));
                }
                assert(info_views(cards@)[i as int] == set_card(note_id, card_type, fields.deep_view())(cv[i as int]));
                i = i + 1;
            }
            assert(info_views(cards@) =~= f(ev[k as int].1));
            self.replace_at(k, cards);
            k = k + 1;
        }
        proof {
            let ev2 = self.entry_views();
            assert(ev2 =~= ev.map_values(|e: (Seq<char>, Seq<CardInfoView>)| (e.0, f(e.1))));
            lemma_entries_map_transform(ev, f);
            assert(self.view() =~= with_note_set(old(self).view(), note_id, card_type, fields.deep_view()));
        }
    }

    /// Takes the cards whose ids are listed out of every deck.
    pub fn take_ids(&mut self, ids: &[CardId]) -> (moved: Vec<CardInfo>)
        requires
            old(self).wf(),
        ensures
            final(self).wf(),
            final(self).view() == without_ids(old(self).view(), ids@),
            forall|i: int| 0 <= i < moved@.len() ==> ids@.contains((#[trigger] moved@[i]).id),
            forall|i: int| 0 <= i < moved@.len() ==> card_held(old(self).view(), (#[trigger] moved@[i])@),
    {
        let ghost ev = self.entry_views();
        let ghost f = |v: Seq<CardInfoView>| v.filter(not_listed(ids@));
        let mut moved: Vec<CardInfo> = Vec::new();
        let mut k: usize = 0;
        while k < self.entries.len()
            invariant
                0 <= k <= self.entries.len(),
                self.entries.len() == ev.len(),
                names_distinct(ev),
                self.wf(),
                f == (|v: Seq<CardInfoView>| v.filter(not_listed(ids@))),
                forall|j: int| 0 <= j < ev.len() ==> (#[trigger] self.entry_views()[j]).0 == ev[j].0,
                forall|j: int| 0 <= j < k ==> (#[trigger] self.entry_views()[j]).1 == f(ev[j].1),
                forall|j: int| k <= j < ev.len() ==> (#[trigger] self.entry_views()[j]).1 == ev[j].1,
                forall|i: int| 0 <= i < moved@.len() ==> ids@.contains((#[trigger] moved@[i]).id),
                forall|i: int| 0 <= i < moved@.len() ==> card_held(entries_map(ev), (#[trigger] moved@[i])@),
                entries_map(ev) == old(self).view(),
            decreases self.entries.len() - k,
        {
            let cards = self.replace_at(k, Vec::new());
            proof {
                lemma_entries_map_get(ev, k as int);
            }
            let mut kept: Vec<CardInfo> = Vec::new();
            let mut i: usize = 0;
            while i < cards.len()
                invariant
                    0 <= i <= cards.len(),
                    info_views(kept@) == info_views(cards@).take(i as int).filter(not_listed(ids@)),
                    forall|ii: int| 0 <= ii < moved@.len() ==> ids@.contains((#[trigger] moved@[ii]).id),
                    forall|ii: int| 0 <= ii < moved@.len() ==> card_held(entries_map(ev), (#[trigger] moved@[ii])@),
                    info_views(cards@) == ev[k as int].1,
                    entries_map(ev).contains_key(ev[k as int].0),
                    entries_map(ev)[ev[k as int].0] == ev[k as int].1,
                decreases cards.len() - i,
            {
                let ghost tk = info_views(cards@).take(i as int);
                assert(info_views(cards@).take(i + 1) =~= tk.push(cards[i as int]@));
                proof {
                    tk.lemma_filter_push(cards[i as int]@, not_listed(ids@));
                }
                let c = copy_info(&cards[i]);
                if contains_id(ids, cards[i].id) {
                    assert(info_views(cards@)[i as int] == cards@[i as int]@);
                    assert(card_held(entries_map(ev), c@));
                    moved.push(c);
                } else {
                    let ghost b = kept@;
                    kept.push(c);
                    assert(info_views(kept@) =~= info_views(b).push(c@));
                }
                i = i + 1;
            }
            assert(info_views(cards@).take(cards.len() as int) =~= info_views(cards@));
            self.replace_at(k, kept);
            k = k + 1;
        }
        proof {
            let ev2 = self.entry_views();
            assert(ev2 =~= ev.map_values(|e: (Seq<char>, Seq<CardInfoView>)| (e.0, f(e.1))));
            lemma_entries_map_transform(ev, f);
            assert(self.view() =~= without_ids(old(self).view(), ids@));
        }
        moved
    }
}

/// Some deck holds the card.
pub open spec fn card_held(m: Map<Seq<char>, Seq<CardInfoView>>, c: CardInfoView) -> bool {
    exists|n: Seq<char>, j: int| m.contains_key(n) && 0 <= j < m[n].len() && #[trigger] m[n][j] == c
}

/// Cards whose ids are not listed.
pub open spec fn not_listed(ids: Seq<CardId>) -> spec_fn(CardInfoView) -> bool {
    |c: CardInfoView| !ids.contains(c.id)
}

/// Every deck without the listed cards.
pub open spec fn without_ids(m: Map<Seq<char>, Seq<CardInfoView>>, ids: Seq<CardId>) -> Map<
    Seq<char>,
    Seq<CardInfoView>,
> {
    Map::new(|k: Seq<char>| m.contains_key(k), |k: Seq<char>| m[k].filter(not_listed(ids)))
}

/// Whether the id is listed.
pub fn contains_id(ids: &[CardId], id: CardId) -> (r: bool)
    ensures
        r == ids@.contains(id),
{
    let mut i: usize = 0;
    while i < ids.len()
        invariant
            0 <= i <= ids.len(),
            forall|j: int| 0 <= j < i ==> ids@[j] != id,
        decreases ids.len() - i,
    {
        if ids[i] == id {
            assert(ids@[i as int] == id);
            return true;
        }
        i = i + 1;
    }
    false
}

/// Some deck holds a card with the id.
pub open spec fn card_in(m: Map<Seq<char>, Seq<CardInfoView>>, id: CardId) -> bool {
    exists|n: Seq<char>, i: int| m.contains_key(n) && 0 <= i < m[n].len() && (#[trigger] m[n][i]).id == id
}

/// Some deck holds a card with the id that belongs to the note.
pub open spec fn card_with_note(m: Map<Seq<char>, Seq<CardInfoView>>, id: CardId, note: NoteId) -> bool {
    exists|n: Seq<char>, i: int|
        m.contains_key(n) && 0 <= i < m[n].len() && (#[trigger] m[n][i]).id == id && m[n][i].note_id
            == note
}

/// A card of the note gets the type and fields; others are kept.
pub open spec fn set_card(note_id: NoteId, t: CardType, fields: Seq<Seq<char>>) -> spec_fn(CardInfoView) -> CardInfoView {
    |c: CardInfoView| if c.note_id == note_id {
        CardInfoView { card_type: t, fields, ..c }
    } else {
        c
    }
}

/// Every card of the note, in every deck, with the type and fields.
pub open spec fn with_note_set(m: Map<Seq<char>, Seq<CardInfoView>>, note_id: NoteId, t: CardType, fields: Seq<Seq<char>>) -> Map<Seq<char>, Seq<CardInfoView>> {
    Map::new(|k: Seq<char>| m.contains_key(k), |k: Seq<char>| m[k].map_values(set_card(note_id, t, fields)))
}

/// Cards not of the note.
pub open spec fn not_of_note(note_id: NoteId) -> spec_fn(CardInfoView) -> bool {
    |c: CardInfoView| c.note_id != note_id
}

/// Every deck without the cards of a note.
pub open spec fn without_note(m: Map<Seq<char>, Seq<CardInfoView>>, note_id: NoteId) -> Map<
    Seq<char>,
    Seq<CardInfoView>,
> {
    Map::new(
        |k: Seq<char>| m.contains_key(k),
        |k: Seq<char>| m[k].filter(not_of_note(note_id)),
    )
}

/// Some deck holds a card of the note.
pub open spec fn note_in(m: Map<Seq<char>, Seq<CardInfoView>>, note_id: NoteId) -> bool {
    exists|n: Seq<char>, i: int|
        m.contains_key(n) && 0 <= i < m[n].len() && (#[trigger] m[n][i]).note_id == note_id
}

/// Keeping the cards that all pass keeps them all.
proof fn lemma_filter_keeps_all(s: Seq<CardInfoView>, note_id: NoteId)
    requires
        forall|i: int| 0 <= i < s.len() ==> (#[trigger] s[i]).note_id != note_id,
    ensures
        s.filter(not_of_note(note_id)) == s,
    decreases s.len(),
{
    reveal(Seq::filter);
    if s.len() > 0 {
        lemma_filter_keeps_all(s.drop_last(), note_id);
        assert(s.drop_last().push(s.last()) =~= s);
    }
}

/// Deleting a note that no deck holds changes nothing.
pub proof fn lemma_without_absent_note(m: Map<Seq<char>, Seq<CardInfoView>>, note_id: NoteId)
    requires
        !note_in(m, note_id),
    ensures
        without_note(m, note_id) == m,
{
    assert forall|k: Seq<char>| #[trigger] m.contains_key(k) implies m[k].filter(not_of_note(note_id)) == m[k] by {
        assert forall|i: int| 0 <= i < m[k].len() implies (#[trigger] m[k][i]).note_id != note_id by {
            if m[k][i].note_id == note_id {
                assert(note_in(m, note_id));
            }
        }
        lemma_filter_keeps_all(m[k], note_id);
    }
    assert(without_note(m, note_id) =~= m);
}

/// Transforming the cards of each entry transforms the map.
pub proof fn lemma_entries_map_transform(
    e: Seq<(Seq<char>, Seq<CardInfoView>)>,
    f: spec_fn(Seq<CardInfoView>) -> Seq<CardInfoView>,
)
    requires
        names_distinct(e),
    ensures
        entries_map(e.map_values(|x: (Seq<char>, Seq<CardInfoView>)| (x.0, f(x.1)))) == Map::new(
            |k: Seq<char>| entries_map(e).contains_key(k),
            |k: Seq<char>| f(entries_map(e)[k]),
        ),
    decreases e.len(),
{
    let g = |x: (Seq<char>, Seq<CardInfoView>)| (x.0, f(x.1));
    if e.len() > 0 {
        let d = e.drop_last();
        lemma_entries_map_transform(d, f);
        assert(e.map_values(g).drop_last() =~= d.map_values(g));
    }
    assert(entries_map(e.map_values(g)) =~= Map::new(
        |k: Seq<char>| entries_map(e).contains_key(k),
        |k: Seq<char>| f(entries_map(e)[k]),
    ));
}

/// A map of distinct entries has one key per entry.
pub proof fn lemma_names_card(e: Seq<(Seq<char>, Seq<CardInfoView>)>)
    requires
        names_distinct(e),
    ensures
        entries_map(e).dom().finite(),
        entries_map(e).dom().len() == e.len(),
    decreases e.len(),
{
    if e.len() > 0 {
        let d = e.drop_last();
        assert(names_distinct(d));
        lemma_names_card(d);
        lemma_entries_map_dom(d, e.last().0);
        if entries_map(d).contains_key(e.last().0) {
            let k = choose|k: int| 0 <= k < d.len() && (#[trigger] d[k]).0 == e.last().0;
            assert(e[k].0 == e[e.len() - 1].0);
        }
    }
}


} // verus!
