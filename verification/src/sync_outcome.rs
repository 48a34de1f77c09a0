//! What a deck holds after a sync: one note per parsed card.
use crate::anki_wrapper::collection::{deck_or_empty, ensured, first_per_note, has_note, note_added, notes_of};
use crate::anki_wrapper::decks::{not_of_note, without_note};
use crate::anki_wrapper::types::{CardInfoView, NoteId};
use crate::doc_parser::types::CardView;
use crate::sync::{
    adds_chain, after_deletes, diff_matches, first_free, incremental_diff_accounts_for_every_card,
    lemma_all_set, lemma_first_free, lemma_matching_counts, matching, note_ids, parsed_key, select,
    stored_key, synced, ContentKey, IncrementalDiff,
};
use vstd::multiset::Multiset;
use vstd::prelude::*;

verus! {

/// The cards whose notes are not listed.
pub open spec fn not_in_ids(ids: Seq<NoteId>) -> spec_fn(CardInfoView) -> bool {
    |c: CardInfoView| !ids.contains(c.note_id)
}

/// No two entries belong to one note.
pub open spec fn distinct_notes(a: Seq<CardInfoView>) -> bool {
    forall|i: int, j: int| 0 <= i < j < a.len() ==> (#[trigger] a[i]).note_id != (#[trigger] a[j]).note_id
}

proof fn lemma_filter_empty(x: Seq<CardInfoView>, p: spec_fn(CardInfoView) -> bool)
    requires
        x.len() == 0,
    ensures
        x.filter(p) == Seq::<CardInfoView>::empty(),
{
    x.lemma_filter_len(p);
    assert(x.filter(p) =~= Seq::<CardInfoView>::empty());
}

proof fn lemma_fpn_prefix(s: Seq<CardInfoView>, t: Seq<CardInfoView>, k: int)
    requires
        0 <= k <= s.len(),
        k <= t.len(),
        forall|i: int| 0 <= i < k ==> s[i] == t[i],
    ensures
        first_per_note(s, k) == first_per_note(t, k),
    decreases k,
{
    if k > 0 {
        lemma_fpn_prefix(s, t, k - 1);
    }
}

proof fn lemma_notes_push(s: Seq<CardInfoView>, c: CardInfoView)
    ensures
        notes_of(s.push(c)) == (if has_note(notes_of(s), c.note_id) {
            notes_of(s)
        } else {
            notes_of(s).push(c)
        }),
{
    lemma_fpn_prefix(s.push(c), s, s.len() as int);
}

proof fn lemma_notes_from(s: Seq<CardInfoView>)
    ensures
        forall|i: int| 0 <= i < notes_of(s).len() ==> s.contains(#[trigger] notes_of(s)[i]),
    decreases s.len(),
{
    if s.len() > 0 {
        let s0 = s.drop_last();
        let c = s.last();
        assert(s =~= s0.push(c));
        lemma_notes_from(s0);
        lemma_notes_push(s0, c);
        assert forall|i: int| 0 <= i < notes_of(s).len() implies s.contains(#[trigger] notes_of(s)[i]) by {
            if i < notes_of(s0).len() {
                assert(notes_of(s)[i] == notes_of(s0)[i]);
                assert(s0.contains(notes_of(s0)[i]));
                let j = choose|j: int| 0 <= j < s0.len() && s0[j] == notes_of(s0)[i];
                assert(s[j] == s0[j]);
            } else {
                assert(notes_of(s)[i] == c);
                assert(s[s.len() - 1] == c);
            }
        }
    }
}

/// The notes read from a deck (one entry per note) belong to distinct
/// notes.
pub proof fn notes_of_deck_are_distinct(s: Seq<CardInfoView>)
    ensures
        distinct_notes(notes_of(s)),
    decreases s.len(),
{
    if s.len() > 0 {
        let s0 = s.drop_last();
        let c = s.last();
        assert(s =~= s0.push(c));
        notes_of_deck_are_distinct(s0);
        lemma_notes_push(s0, c);
        let n0 = notes_of(s0);
        if !has_note(n0, c.note_id) {
            assert forall|i: int, j: int| 0 <= i < j < notes_of(s).len() implies (
            #[trigger] notes_of(s)[i]).note_id != (#[trigger] notes_of(s)[j]).note_id by {
                if j == n0.len() {
                    assert(notes_of(s)[i] == n0[i]);
                } else {
                    assert(notes_of(s)[i] == n0[i]);
                    assert(notes_of(s)[j] == n0[j]);
                }
            }
        }
    }
}

/// Filtering whole notes out of a deck filters its notes the same way.
proof fn lemma_notes_filter(s: Seq<CardInfoView>, p: spec_fn(CardInfoView) -> bool)
    requires
        forall|x: CardInfoView, y: CardInfoView| x.note_id == y.note_id ==> #[trigger] p(x) == #[trigger] p(y),
    ensures
        notes_of(s.filter(p)) == notes_of(s).filter(p),
    decreases s.len(),
{
    if s.len() == 0 {
        lemma_filter_empty(s, p);
        lemma_filter_empty(notes_of(s), p);
    } else {
        let s0 = s.drop_last();
        let c = s.last();
        assert(s =~= s0.push(c));
        lemma_notes_filter(s0, p);
        s0.lemma_filter_push(c, p);
        lemma_notes_push(s0, c);
        let n0 = notes_of(s0);
        n0.lemma_filter_push(c, p);
        if p(c) {
            lemma_notes_push(s0.filter(p), c);
            if has_note(n0, c.note_id) {
                let i = choose|i: int| 0 <= i < n0.len() && (#[trigger] n0[i]).note_id == c.note_id;
                assert(p(n0[i]));
                n0.lemma_filter_contains(p, i);
                let k = choose|k: int| 0 <= k < n0.filter(p).len() && n0.filter(p)[k] == n0[i];
                assert(has_note(n0.filter(p), c.note_id));
            }
            if has_note(n0.filter(p), c.note_id) {
                let i = choose|i: int| 0 <= i < n0.filter(p).len() && (#[trigger] n0.filter(p)[i]).note_id
                    == c.note_id;
                let x = n0.filter(p)[i];
                assert(n0.filter(p).contains(x));
                n0.lemma_filter_contains_rev(p, x);
                let k = choose|k: int| 0 <= k < n0.len() && n0[k] == x;
                assert(has_note(n0, c.note_id));
            }
        } else {
            if !has_note(n0, c.note_id) {
                n0.lemma_filter_push(c, p);
            }
        }
    }
}

proof fn lemma_filter_twice(
    x: Seq<CardInfoView>,
    p: spec_fn(CardInfoView) -> bool,
    q: spec_fn(CardInfoView) -> bool,
    r: spec_fn(CardInfoView) -> bool,
)
    requires
        forall|c: CardInfoView| #[trigger] r(c) == (p(c) && q(c)),
    ensures
        x.filter(p).filter(q) == x.filter(r),
    decreases x.len(),
{
    if x.len() == 0 {
        lemma_filter_empty(x, p);
        lemma_filter_empty(x.filter(p), q);
        lemma_filter_empty(x, r);
    } else {
        let x0 = x.drop_last();
        let c = x.last();
        assert(x =~= x0.push(c));
        lemma_filter_twice(x0, p, q, r);
        x0.lemma_filter_push(c, p);
        x0.filter(p).lemma_filter_push(c, q);
        x0.lemma_filter_push(c, r);
    }
}

/// The notes of a deck after deleting notes are its notes without them.
proof fn lemma_after_deletes(m: Map<Seq<char>, Seq<CardInfoView>>, ids: Seq<NoteId>, deck: Seq<char>)
    requires
        m.contains_key(deck),
    ensures
        after_deletes(m, ids).contains_key(deck),
        notes_of(after_deletes(m, ids)[deck]) == notes_of(m[deck]).filter(not_in_ids(ids)),
    decreases ids.len(),
{
    if ids.len() == 0 {
        let n = notes_of(m[deck]);
        assert forall|c: CardInfoView| #[trigger] not_in_ids(ids)(c) == (true) by {}
        lemma_filter_all(n, not_in_ids(ids));
    } else {
        let ids0 = ids.drop_last();
        let last = ids.last();
        lemma_after_deletes(m, ids0, deck);
        let a = after_deletes(m, ids0);
        assert(without_note(a, last)[deck] == a[deck].filter(not_of_note(last)));
        lemma_notes_filter(a[deck], not_of_note(last));
        assert forall|c: CardInfoView| #[trigger] not_in_ids(ids)(c) == (not_in_ids(ids0)(c)
            && not_of_note(last)(c)) by {
            assert(ids =~= ids0.push(last));
            if ids0.contains(c.note_id) {
                let k = choose|k: int| 0 <= k < ids0.len() && ids0[k] == c.note_id;
                assert(ids[k] == ids0[k]);
            }
            if ids.contains(c.note_id) {
                let k = choose|k: int| 0 <= k < ids.len() && ids[k] == c.note_id;
                if k < ids0.len() {
                    assert(ids0[k] == ids[k]);
                }
            }
            if c.note_id == last {
                assert(ids[ids.len() - 1] == last);
            }
        }
        lemma_filter_twice(notes_of(m[deck]), not_in_ids(ids0), not_of_note(last), not_in_ids(ids));
    }
}

proof fn lemma_filter_all(x: Seq<CardInfoView>, p: spec_fn(CardInfoView) -> bool)
    requires
        forall|c: CardInfoView| #[trigger] p(c),
    ensures
        x.filter(p) == x,
    decreases x.len(),
{
    if x.len() == 0 {
        lemma_filter_empty(x, p);
    } else {
        let x0 = x.drop_last();
        assert(x =~= x0.push(x.last()));
        lemma_filter_all(x0, p);
        x0.lemma_filter_push(x.last(), p);
    }
}

proof fn lemma_select_contains<T>(a: Seq<T>, f: Seq<bool>, keep: bool, n: int, x: T)
    requires
        0 <= n <= a.len(),
        a.len() <= f.len(),
    ensures
        select(a, f, keep, n).contains(x) <==> exists|j: int| 0 <= j < n && f[j] == keep && #[trigger] a[j] == x,
    decreases n,
{
    if n > 0 {
        lemma_select_contains(a, f, keep, n - 1, x);
        let s0 = select(a, f, keep, n - 1);
        if f[n - 1] == keep {
            if s0.contains(x) {
                let k = choose|k: int| 0 <= k < s0.len() && s0[k] == x;
                assert(select(a, f, keep, n)[k] == x);
            }
            if a[n - 1] == x {
                assert(select(a, f, keep, n)[s0.len() as int] == x);
            }
            if select(a, f, keep, n).contains(x) {
                let k = choose|k: int| 0 <= k < select(a, f, keep, n).len() && select(a, f, keep, n)[k] == x;
                if k < s0.len() {
                    assert(s0[k] == x);
                }
            }
        }
    }
}

/// The notes left after deleting the unmatched ones are the matched ones.
proof fn lemma_filter_unmatched(a: Seq<CardInfoView>, f: Seq<bool>, k: int)
    requires
        distinct_notes(a),
        f.len() == a.len(),
        0 <= k <= a.len(),
    ensures
        a.take(k).filter(not_in_ids(note_ids(select(a, f, false, a.len() as int)))) == select(a, f, true, k),
    decreases k,
{
    let ids = note_ids(select(a, f, false, a.len() as int));
    let p = not_in_ids(ids);
    if k == 0 {
        lemma_filter_empty(a.take(0), p);
    } else {
        lemma_filter_unmatched(a, f, k - 1);
        assert(a.take(k) =~= a.take(k - 1).push(a[k - 1]));
        a.take(k - 1).lemma_filter_push(a[k - 1], p);
        let sel = select(a, f, false, a.len() as int);
        let nid = a[k - 1].note_id;
        if ids.contains(nid) {
            let i = choose|i: int| 0 <= i < ids.len() && ids[i] == nid;
            assert(sel.contains(sel[i]));
            lemma_select_contains(a, f, false, a.len() as int, sel[i]);
            let j = choose|j: int| 0 <= j < a.len() && f[j] == false && #[trigger] a[j] == sel[i];
            if j != k - 1 {
                if j < k - 1 {
                    assert(a[j].note_id != a[k - 1].note_id);
                } else {
                    assert(a[k - 1].note_id != a[j].note_id);
                }
            }
            assert(f[k - 1] == false);
        } else {
            if f[k - 1] == false {
                lemma_select_contains(a, f, false, a.len() as int, a[k - 1]);
                assert(sel.contains(a[k - 1]));
                let i = choose|i: int| 0 <= i < sel.len() && sel[i] == a[k - 1];
                assert(ids[i] == nid);
            }
        }
    }
}

proof fn lemma_select_map<A, B>(s: Seq<A>, g: spec_fn(A) -> B, f: Seq<bool>, keep: bool, n: int)
    requires
        0 <= n <= s.len(),
    ensures
        select(s, f, keep, n).map_values(g) == select(s.map_values(g), f, keep, n),
    decreases n,
{
    if n > 0 {
        lemma_select_map(s, g, f, keep, n - 1);
        assert(select(s, f, keep, n - 1).push(s[n - 1]).map_values(g) =~= select(s, f, keep, n - 1).map_values(g).push(g(s[n - 1])));
    } else {
        assert(select(s, f, keep, n).map_values(g) =~= Seq::<B>::empty());
    }
}

/// Adding a note appends its first card to the deck's notes.
proof fn lemma_note_added_notes(
    old: Map<Seq<char>, Seq<CardInfoView>>,
    new: Map<Seq<char>, Seq<CardInfoView>>,
    deck: Seq<char>,
    t: crate::anki_wrapper::types::CardType,
    fields: Seq<Seq<char>>,
)
    requires
        note_added(old, new, deck, t, fields),
    ensures
        new.contains_key(deck),
        notes_of(new[deck]) == notes_of(deck_or_empty(old, deck)).push(
            new[deck][deck_or_empty(old, deck).len() as int],
        ),
        new[deck][deck_or_empty(old, deck).len() as int].card_type == t,
        new[deck][deck_or_empty(old, deck).len() as int].fields == fields,
{
    let before = deck_or_empty(old, deck);
    let nd = new[deck];
    let b = before.len() as int;
    assert(new.dom().contains(deck));
    let c0 = nd[b];
    lemma_fpn_prefix(nd, before, b);
    lemma_notes_from(before);
    let nb = notes_of(before);
    if has_note(nb, c0.note_id) {
        let i = choose|i: int| 0 <= i < nb.len() && (#[trigger] nb[i]).note_id == c0.note_id;
        assert(before.contains(nb[i]));
        let j = choose|j: int| 0 <= j < before.len() && before[j] == nb[i];
        assert(before[j].note_id != c0.note_id);
    }
    assert(first_per_note(nd, b + 1) == nb.push(c0));
    if nd.len() == b + 2 {
        assert(nd[b + 1].note_id == c0.note_id);
        assert(nb.push(c0)[nb.len() as int] == c0);
        assert(has_note(nb.push(c0), nd[b + 1].note_id));
        assert(first_per_note(nd, b + 2) == nb.push(c0));
    }
}

/// The content keys of the deck's notes along a chain of additions.
proof fn lemma_adds_chain_keys(
    ms: Seq<Map<Seq<char>, Seq<CardInfoView>>>,
    deck: Seq<char>,
    cards: Seq<CardView>,
    i: int,
)
    requires
        adds_chain(ms, deck, cards),
        0 <= i <= cards.len(),
        ms[0].contains_key(deck),
    ensures
        ms[i].contains_key(deck),
        notes_of(ms[i][deck]).map_values(|c: CardInfoView| stored_key(c)) == notes_of(ms[0][deck]).map_values(
            |c: CardInfoView| stored_key(c),
        ) + cards.take(i).map_values(|c: CardView| parsed_key(c)),
    decreases i,
{
    if i == 0 {
        assert(cards.take(0).map_values(|c: CardView| parsed_key(c)) =~= Seq::<ContentKey>::empty());
        assert(notes_of(ms[0][deck]).map_values(|c: CardInfoView| stored_key(c)) + Seq::<ContentKey>::empty()
            =~= notes_of(ms[0][deck]).map_values(|c: CardInfoView| stored_key(c)));
    } else {
        lemma_adds_chain_keys(ms, deck, cards, i - 1);
        let k = parsed_key(cards[i - 1]);
        assert(note_added(ms[i - 1], ms[i], deck, k.0, k.1));
        lemma_note_added_notes(ms[i - 1], ms[i], deck, k.0, k.1);
        let before = deck_or_empty(ms[i - 1], deck);
        assert(before == ms[i - 1][deck]);
        let c0 = ms[i][deck][before.len() as int];
        assert(stored_key(c0) == k);
        assert(notes_of(ms[i - 1][deck]).push(c0).map_values(|c: CardInfoView| stored_key(c))
            =~= notes_of(ms[i - 1][deck]).map_values(|c: CardInfoView| stored_key(c)).push(k));
        assert(cards.take(i).map_values(|c: CardView| parsed_key(c)) =~= cards.take(i - 1).map_values(
            |c: CardView| parsed_key(c),
        ).push(k));
        assert(notes_of(ms[i][deck]).map_values(|c: CardInfoView| stored_key(c)) =~= notes_of(ms[0][deck]).map_values(
            |c: CardInfoView| stored_key(c),
        ) + cards.take(i).map_values(|c: CardView| parsed_key(c)));
    }
}

proof fn lemma_select_flip<T>(s: Seq<T>, f: Seq<bool>, j: int, n: int)
    requires
        0 <= j < f.len(),
        0 <= n <= s.len(),
        s.len() <= f.len(),
        !f[j],
    ensures
        select(s, f.update(j, true), true, n).to_multiset() == (if j < n {
            select(s, f, true, n).to_multiset().insert(s[j])
        } else {
            select(s, f, true, n).to_multiset()
        }),
    decreases n,
{
    broadcast use vstd::seq_lib::to_multiset_build;

    if n > 0 {
        lemma_select_flip(s, f, j, n - 1);
        let g = f.update(j, true);
        if n - 1 == j {
            assert(select(s, g, true, n) == select(s, g, true, n - 1).push(s[j]));
        }
    }
}

proof fn lemma_select_split<T>(s: Seq<T>, f: Seq<bool>, n: int)
    requires
        0 <= n <= s.len(),
        s.len() <= f.len(),
    ensures
        select(s, f, true, n).to_multiset().add(select(s, f, false, n).to_multiset()) == s.take(n).to_multiset(),
    decreases n,
{
    broadcast use vstd::seq_lib::to_multiset_build;
    broadcast use vstd::multiset::group_multiset_axioms;

    if n == 0 {
        assert(s.take(0) =~= Seq::<T>::empty());
        assert(select(s, f, true, 0) =~= Seq::<T>::empty());
        assert(select(s, f, false, 0) =~= Seq::<T>::empty());
        vstd::seq_lib::to_multiset_len(Seq::<T>::empty());
        vstd::multiset::lemma_multiset_empty_len(Seq::<T>::empty().to_multiset());
        assert(Seq::<T>::empty().to_multiset() =~= Multiset::<T>::empty());
        assert(select(s, f, true, 0).to_multiset() =~= Multiset::<T>::empty());
        assert(select(s, f, false, 0).to_multiset() =~= Multiset::<T>::empty());
        assert(Seq::<T>::empty().to_multiset() =~= Multiset::<T>::empty());
        assert(Multiset::<T>::empty().add(Multiset::<T>::empty()) =~= Multiset::<T>::empty());
    } else {
        lemma_select_split(s, f, n - 1);
        assert(s.take(n) =~= s.take(n - 1).push(s[n - 1]));
        let a = select(s, f, true, n - 1).to_multiset();
        let b = select(s, f, false, n - 1).to_multiset();
        assert(a.insert(s[n - 1]).add(b) =~= a.add(b).insert(s[n - 1]));
        assert(a.add(b.insert(s[n - 1])) =~= a.add(b).insert(s[n - 1]));
    }
}

/// The matched stored keys are, as a multiset, the matched parsed keys.
proof fn lemma_matched_keys(pk: Seq<ContentKey>, ak: Seq<ContentKey>, n: int)
    requires
        0 <= n <= pk.len(),
    ensures
        select(ak, matching(pk, ak, n).0, true, ak.len() as int).to_multiset() == select(
            pk,
            matching(pk, ak, n).1,
            true,
            pk.len() as int,
        ).to_multiset(),
    decreases n,
{
    lemma_matching_counts(pk, ak, n);
    if n == 0 {
        let am = matching(pk, ak, 0).0;
        let pm = matching(pk, ak, 0).1;
        lemma_none_selected(ak, am, ak.len() as int);
        lemma_none_selected(pk, pm, pk.len() as int);
    } else {
        lemma_matched_keys(pk, ak, n - 1);
        lemma_matching_counts(pk, ak, n - 1);
        let (am, pm) = matching(pk, ak, n - 1);
        lemma_first_free(ak, am, pk[n - 1], 0);
        match first_free(ak, am, pk[n - 1], 0) {
            Some(j) => {
                lemma_select_flip(ak, am, j, ak.len() as int);
                assert(!pm[n - 1]);
                lemma_select_flip(pk, pm, n - 1, pk.len() as int);
            },
            None => {},
        }
    }
}

proof fn lemma_none_selected<T>(s: Seq<T>, f: Seq<bool>, n: int)
    requires
        0 <= n <= s.len(),
        s.len() <= f.len(),
        forall|i: int| 0 <= i < f.len() ==> !f[i],
    ensures
        select(s, f, true, n) == Seq::<T>::empty(),
    decreases n,
{
    if n > 0 {
        lemma_none_selected(s, f, n - 1);
    } else {
        assert(select(s, f, true, n) =~= Seq::<T>::empty());
    }
}

/// Documents are the source of truth: after a successful sync that read
/// the deck's notes, the deck holds one note per parsed card. As a
/// multiset, the content keys (note type and fields) of the deck's notes
/// are those of the parsed cards.
pub proof fn sync_leaves_deck_matching_documents(
    m0: Map<Seq<char>, Seq<CardInfoView>>,
    deck: Seq<char>,
    parsed: Seq<CardView>,
    anki: Seq<CardInfoView>,
    ms: Seq<Map<Seq<char>, Seq<CardInfoView>>>,
    m_final: Map<Seq<char>, Seq<CardInfoView>>,
    counts: (nat, nat, nat),
)
    requires
        synced(m0, deck, parsed, anki, ms, m_final, counts),
    ensures
        m_final.contains_key(deck),
        notes_of(m_final[deck]).map_values(|c: CardInfoView| stored_key(c)).to_multiset() == parsed.map_values(
            |c: CardView| parsed_key(c),
        ).to_multiset(),
{
    broadcast use vstd::seq_lib::lemma_multiset_commutative;

    let m1 = ensured(m0, deck);
    let pk = parsed.map_values(|x: CardView| parsed_key(x));
    let ak = anki.map_values(|x: CardInfoView| stored_key(x));
    lemma_matching_counts(pk, ak, pk.len() as int);
    let (am, pm) = matching(pk, ak, pk.len() as int);
    let ids = note_ids(select(anki, am, false, anki.len() as int));
    let adds = select(parsed, pm, false, parsed.len() as int);
    assert(m1.contains_key(deck));
    lemma_after_deletes(m1, ids, deck);
    notes_of_deck_are_distinct(m1[deck]);
    lemma_filter_unmatched(anki, am, anki.len() as int);
    assert(anki.take(anki.len() as int) =~= anki);
    let kept = select(anki, am, true, anki.len() as int);
    assert(notes_of(ms[0][deck]) == kept);
    lemma_adds_chain_keys(ms, deck, adds, adds.len() as int);
    assert(adds.take(adds.len() as int) =~= adds);
    assert(ms.last() == ms[adds.len() as int]);
    lemma_select_map(anki, |x: CardInfoView| stored_key(x), am, true, anki.len() as int);
    lemma_select_map(parsed, |x: CardView| parsed_key(x), pm, false, parsed.len() as int);
    let kk = select(ak, am, true, ak.len() as int);
    let ka = select(pk, pm, false, pk.len() as int);
    assert(notes_of(m_final[deck]).map_values(|c: CardInfoView| stored_key(c)) == kk + ka);
    lemma_matched_keys(pk, ak, pk.len() as int);
    lemma_select_split(pk, pm, pk.len() as int);
    assert(pk.take(pk.len() as int) =~= pk);
}

proof fn lemma_first_free_none(ak: Seq<ContentKey>, am: Seq<bool>, k: ContentKey, j: int)
    requires
        0 <= j,
        am.len() == ak.len(),
        first_free(ak, am, k, j) is None,
    ensures
        forall|i: int| j <= i < ak.len() && ak[i] == k ==> am[i],
    decreases ak.len() - j,
{
    if j < ak.len() {
        lemma_first_free_none(ak, am, k, j + 1);
    }
}

proof fn lemma_unflagged_without_key(s: Seq<ContentKey>, f: Seq<bool>, k: ContentKey, n: int)
    requires
        0 <= n <= s.len(),
        s.len() <= f.len(),
        forall|j: int| 0 <= j < n && s[j] == k ==> f[j],
    ensures
        select(s, f, false, n).to_multiset().count(k) == 0,
    decreases n,
{
    broadcast use vstd::seq_lib::to_multiset_build;
    broadcast use vstd::multiset::group_multiset_axioms;

    if n == 0 {
        assert(select(s, f, false, 0) =~= Seq::<ContentKey>::empty());
        vstd::seq_lib::to_multiset_len(Seq::<ContentKey>::empty());
        vstd::multiset::lemma_multiset_empty_len(Seq::<ContentKey>::empty().to_multiset());
    } else {
        lemma_unflagged_without_key(s, f, k, n - 1);
    }
}

proof fn lemma_select_beyond(s: Seq<ContentKey>, f: Seq<bool>, n: int, m: int)
    requires
        0 <= n <= m <= s.len(),
        s.len() <= f.len(),
        forall|i: int| n <= i < m ==> !f[i],
    ensures
        select(s, f, true, m) == select(s, f, true, n),
    decreases m - n,
{
    if n < m {
        lemma_select_beyond(s, f, n, m - 1);
    }
}

proof fn lemma_prefix_has_fewer(s: Seq<ContentKey>, n: int)
    requires
        0 <= n < s.len(),
    ensures
        s.take(n).to_multiset().count(s[n]) < s.to_multiset().count(s[n]),
{
    broadcast use vstd::seq_lib::lemma_multiset_commutative;
    broadcast use vstd::seq_lib::to_multiset_build;
    broadcast use vstd::multiset::group_multiset_axioms;

    assert(s =~= s.take(n) + s.skip(n));
    assert(s.skip(n) =~= seq![s[n]] + s.skip(n + 1));
    assert(seq![s[n]] =~= Seq::<ContentKey>::empty().push(s[n]));
}

/// Every parsed key finds a stored key when the stored keys are the parsed
/// ones in some order.
proof fn lemma_all_matched(pk: Seq<ContentKey>, ak: Seq<ContentKey>, n: int)
    requires
        0 <= n <= pk.len(),
        ak.to_multiset() == pk.to_multiset(),
    ensures
        forall|i: int| 0 <= i < n ==> matching(pk, ak, n).1[i],
    decreases n,
{
    broadcast use vstd::multiset::group_multiset_axioms;

    if n > 0 {
        lemma_all_matched(pk, ak, n - 1);
        lemma_matching_counts(pk, ak, n - 1);
        lemma_matching_counts(pk, ak, n);
        let (am, pm) = matching(pk, ak, n - 1);
        let k = pk[n - 1];
        lemma_first_free(ak, am, k, 0);
        if first_free(ak, am, k, 0) is None {
            lemma_first_free_none(ak, am, k, 0);
            lemma_unflagged_without_key(ak, am, k, ak.len() as int);
            lemma_select_split(ak, am, ak.len() as int);
            assert(ak.take(ak.len() as int) =~= ak);
            lemma_matched_keys(pk, ak, n - 1);
            lemma_select_beyond(pk, pm, n - 1, pk.len() as int);
            lemma_select_split(pk, pm, n - 1);
            lemma_prefix_has_fewer(pk, n - 1);
            assert(false);
        }
    }
}

/// Re-diffing cards against a deck whose notes hold the same content, in
/// any order, adds and deletes nothing: a re-sync of unchanged documents
/// changes nothing and keeps every note (and its reviews).
pub proof fn incremental_diff_of_same_content_is_empty(
    parsed: Seq<CardView>,
    anki: Seq<CardInfoView>,
    d: IncrementalDiff,
)
    requires
        diff_matches(d, parsed, anki),
        anki.map_values(|c: CardInfoView| stored_key(c)).to_multiset() == parsed.map_values(
            |c: CardView| parsed_key(c),
        ).to_multiset(),
    ensures
        d.to_add@.len() == 0,
        d.to_delete@.len() == 0,
        d.unchanged == parsed.len(),
{
    let pk = parsed.map_values(|c: CardView| parsed_key(c));
    let ak = anki.map_values(|c: CardInfoView| stored_key(c));
    lemma_all_matched(pk, ak, pk.len() as int);
    lemma_matching_counts(pk, ak, pk.len() as int);
    let (am, pm) = matching(pk, ak, pk.len() as int);
    lemma_all_set(pm, pm.len() as int);
    vstd::seq_lib::to_multiset_len(pk);
    vstd::seq_lib::to_multiset_len(ak);
    incremental_diff_accounts_for_every_card(parsed, anki, d);
}

/// Syncing the same documents twice: the second sync adds and deletes
/// nothing, finds every card unchanged and leaves every deck as the first
/// sync left it, so each note keeps its card ids (and their reviews).
pub proof fn second_sync_changes_nothing(
    m0: Map<Seq<char>, Seq<CardInfoView>>,
    deck: Seq<char>,
    parsed: Seq<CardView>,
    anki1: Seq<CardInfoView>,
    ms1: Seq<Map<Seq<char>, Seq<CardInfoView>>>,
    m1: Map<Seq<char>, Seq<CardInfoView>>,
    counts1: (nat, nat, nat),
    anki2: Seq<CardInfoView>,
    ms2: Seq<Map<Seq<char>, Seq<CardInfoView>>>,
    m2: Map<Seq<char>, Seq<CardInfoView>>,
    counts2: (nat, nat, nat),
)
    requires
        synced(m0, deck, parsed, anki1, ms1, m1, counts1),
        synced(m1, deck, parsed, anki2, ms2, m2, counts2),
    ensures
        counts2 == (0nat, 0nat, parsed.len()),
        m2 == m1,
{
    sync_leaves_deck_matching_documents(m0, deck, parsed, anki1, ms1, m1, counts1);
    assert(ensured(m1, deck)[deck] == m1[deck]);
    let pk = parsed.map_values(|x: CardView| parsed_key(x));
    let ak = anki2.map_values(|x: CardInfoView| stored_key(x));
    lemma_all_matched(pk, ak, pk.len() as int);
    lemma_matching_counts(pk, ak, pk.len() as int);
    let (am, pm) = matching(pk, ak, pk.len() as int);
    lemma_all_set(pm, pm.len() as int);
    vstd::seq_lib::to_multiset_len(pk);
    vstd::seq_lib::to_multiset_len(ak);
    crate::sync::lemma_select_and_count(parsed, pm, parsed.len() as int);
    crate::sync::lemma_select_and_count(anki2, am, anki2.len() as int);
    assert(note_ids(select(anki2, am, false, anki2.len() as int)).len() == 0);
    assert(ensured(m1, deck) =~= m1);
    assert(ms2.len() == 1);
}

/// The counts of a successful sync add up: every parsed card was added or
/// found unchanged, and every note the deck held before (none if it was
/// missing) was deleted or kept unchanged.
pub proof fn sync_counts_add_up(
    m0: Map<Seq<char>, Seq<CardInfoView>>,
    deck: Seq<char>,
    parsed: Seq<CardView>,
    anki: Seq<CardInfoView>,
    ms: Seq<Map<Seq<char>, Seq<CardInfoView>>>,
    m_final: Map<Seq<char>, Seq<CardInfoView>>,
    counts: (nat, nat, nat),
)
    requires
        synced(m0, deck, parsed, anki, ms, m_final, counts),
    ensures
        counts.0 + counts.2 == parsed.len(),
        counts.1 + counts.2 == notes_of(deck_or_empty(m0, deck)).len(),
{
    assert(ensured(m0, deck)[deck] == deck_or_empty(m0, deck));
    let pk = parsed.map_values(|x: CardView| parsed_key(x));
    let ak = anki.map_values(|x: CardInfoView| stored_key(x));
    lemma_matching_counts(pk, ak, pk.len() as int);
    let (am, pm) = matching(pk, ak, pk.len() as int);
    crate::sync::lemma_select_and_count(parsed, pm, parsed.len() as int);
    crate::sync::lemma_select_and_count(anki, am, anki.len() as int);
}

} // verus!
