//! Incremental sync: the deck keeps the notes that still match a parsed card
//! (and their reviews), loses the others, and gains the new cards.
use crate::adapter::{anki_type, convert_card, html_fields, AnkiCollectionAdapter};
use crate::anki_wrapper::collection::{ensured, note_added, notes_of, AnkiCollection as AnkiWrapperCollection};
use crate::anki_wrapper::error::{anki_error_message, says_not_found, AnkiWrapperError};
use crate::anki_wrapper::types::{info_views, CardInfo, CardInfoView, CardType as AnkiCardType, NoteId};
use crate::doc_parser::error::ParseError;
use crate::doc_parser::markdown::{parse_outcome, DocumentParser, MarkdownParser, ParseOutcome};
use crate::doc_parser::types::{extend_cards, media_view, media_views, views, warning_views, Card, CardType, CardView, MediaReference, Warning};
use crate::error::CliError;
use crate::media::{check_media_collisions, collides, reports_first_collision, CopyReport};
use crate::output::SyncResult;
use crate::text::{chars_of, push_str, string_of};
use crate::update_planner_parser::types::{Card as PlannerCard, CardType as PlannerCardType};
use vstd::prelude::*;

verus! {

/// What identifies a card's content in Anki: note type and fields.
pub type ContentKey = (AnkiCardType, Seq<Seq<char>>);

/// The planner type of a parsed card type.
pub open spec fn planner_type(t: CardType) -> PlannerCardType {
    match t {
        CardType::Basic => PlannerCardType::Basic,
        CardType::Bidirectional => PlannerCardType::Bidirectional,
        CardType::Sequence => PlannerCardType::Sequence,
    }
}

/// The content key of a parsed card once stored: mapped type, HTML fields.
pub open spec fn parsed_key(c: CardView) -> ContentKey {
    (anki_type(planner_type(c.card_type)), html_fields(c.fields))
}

/// The content key of a stored note.
pub open spec fn stored_key(c: CardInfoView) -> ContentKey {
    (c.card_type, c.fields)
}

/// The first unmatched stored key equal to `k`, at or after `j`.
pub open spec fn first_free(ak: Seq<ContentKey>, am: Seq<bool>, k: ContentKey, j: int) -> Option<int>
    decreases ak.len() - j,
{
    if j < 0 || j >= ak.len() {
        None
    } else if !am[j] && ak[j] == k {
        Some(j)
    } else {
        first_free(ak, am, k, j + 1)
    }
}

/// The matching after the first `n` parsed keys: each takes the first
/// unmatched equal stored key. Flags for stored keys, then parsed keys.
pub open spec fn matching(pk: Seq<ContentKey>, ak: Seq<ContentKey>, n: int) -> (Seq<bool>, Seq<bool>)
    decreases n,
{
    if n <= 0 {
        (Seq::new(ak.len(), |i: int| false), Seq::new(pk.len(), |i: int| false))
    } else {
        let (am, pm) = matching(pk, ak, n - 1);
        match first_free(ak, am, pk[n - 1], 0) {
            Some(j) => (am.update(j, true), pm.update(n - 1, true)),
            None => (am, pm),
        }
    }
}

/// The elements of the first `n` positions whose flag is `keep`.
pub open spec fn select<T>(s: Seq<T>, flags: Seq<bool>, keep: bool, n: int) -> Seq<T>
    decreases n,
{
    if n <= 0 {
        seq![]
    } else if flags[n - 1] == keep {
        select(s, flags, keep, n - 1).push(s[n - 1])
    } else {
        select(s, flags, keep, n - 1)
    }
}

/// How many of the first `n` flags are set.
pub open spec fn count_set(flags: Seq<bool>, n: int) -> nat
    decreases n,
{
    if n <= 0 {
        0
    } else {
        count_set(flags, n - 1) + (if flags[n - 1] {
            1nat
        } else {
            0nat
        })
    }
}

/// The values of a sequence of parsed cards.
pub open spec fn doc_views(s: Seq<Card>) -> Seq<CardView> {
    s.map_values(|c: Card| c@)
}

/// The result of diffing parsed cards against a deck.
pub struct IncrementalDiff {
    /// Parsed cards with no matching note.
    pub to_add: Vec<Card>,
    /// Notes with no matching parsed card.
    pub to_delete: Vec<NoteId>,
    /// How many parsed cards matched a note.
    pub unchanged: usize,
}

/// The notes of entries.
pub open spec fn note_ids(s: Seq<CardInfoView>) -> Seq<NoteId> {
    s.map_values(|c: CardInfoView| c.note_id)
}

/// The diff matches the parsed cards and notes as `matching` does.
pub open spec fn diff_matches(d: IncrementalDiff, parsed: Seq<CardView>, anki: Seq<CardInfoView>) -> bool {
    let pk = parsed.map_values(|c: CardView| parsed_key(c));
    let ak = anki.map_values(|c: CardInfoView| stored_key(c));
    let (am, pm) = matching(pk, ak, pk.len() as int);
    &&& doc_views(d.to_add@) == select(parsed, pm, false, parsed.len() as int)
    &&& d.to_delete@ == note_ids(select(anki, am, false, anki.len() as int))
    &&& d.unchanged == count_set(pm, pm.len() as int)
}

pub(crate) proof fn lemma_first_free(ak: Seq<ContentKey>, am: Seq<bool>, k: ContentKey, j: int)
    requires
        0 <= j,
        am.len() == ak.len(),
    ensures
        first_free(ak, am, k, j) matches Some(i) ==> j <= i < ak.len() && !am[i] && ak[i] == k,
    decreases ak.len() - j,
{
    if j < ak.len() && !(!am[j] && ak[j] == k) {
        lemma_first_free(ak, am, k, j + 1);
    }
}

proof fn lemma_count_set_update(flags: Seq<bool>, j: int, n: int)
    requires
        0 <= j < flags.len(),
        0 <= n <= flags.len(),
        !flags[j],
    ensures
        count_set(flags.update(j, true), n) == count_set(flags, n) + (if j < n { 1int } else { 0int }),
    decreases n,
{
    if n > 0 {
        lemma_count_set_update(flags, j, n - 1);
    }
}

pub(crate) proof fn lemma_matching_counts(pk: Seq<ContentKey>, ak: Seq<ContentKey>, n: int)
    requires
        0 <= n <= pk.len(),
    ensures
        matching(pk, ak, n).0.len() == ak.len(),
        matching(pk, ak, n).1.len() == pk.len(),
        forall|i: int| n <= i < pk.len() ==> !#[trigger] matching(pk, ak, n).1[i],
        count_set(matching(pk, ak, n).0, ak.len() as int) == count_set(
            matching(pk, ak, n).1,
            pk.len() as int,
        ),
    decreases n,
{
    if n == 0 {
        let am = Seq::new(ak.len(), |i: int| false);
        let pm = Seq::new(pk.len(), |i: int| false);
        lemma_count_none(am, ak.len() as int);
        lemma_count_none(pm, pk.len() as int);
    } else {
        lemma_matching_counts(pk, ak, n - 1);
        let (am, pm) = matching(pk, ak, n - 1);
        lemma_first_free(ak, am, pk[n - 1], 0);
        match first_free(ak, am, pk[n - 1], 0) {
            Some(j) => {
                lemma_count_set_update(am, j, ak.len() as int);
                lemma_count_set_update(pm, n - 1, pk.len() as int);
            },
            None => {},
        }
    }
}

proof fn lemma_count_none(flags: Seq<bool>, n: int)
    requires
        0 <= n <= flags.len(),
        forall|i: int| 0 <= i < flags.len() ==> !flags[i],
    ensures
        count_set(flags, n) == 0,
    decreases n,
{
    if n > 0 {
        lemma_count_none(flags, n - 1);
    }
}

pub(crate) proof fn lemma_select_and_count<T>(s: Seq<T>, flags: Seq<bool>, n: int)
    requires
        0 <= n <= flags.len(),
    ensures
        select(s, flags, false, n).len() + count_set(flags, n) == n,
    decreases n,
{
    if n > 0 {
        lemma_select_and_count(s, flags, n - 1);
    }
}

/// Every parsed card is either added or unchanged, and every stored note
/// either deleted or unchanged.
pub proof fn incremental_diff_accounts_for_every_card(
    parsed: Seq<CardView>,
    anki: Seq<CardInfoView>,
    d: IncrementalDiff,
)
    requires
        diff_matches(d, parsed, anki),
    ensures
        d.to_add@.len() + d.unchanged == parsed.len(),
        d.to_delete@.len() + d.unchanged == anki.len(),
{
    let pk = parsed.map_values(|c: CardView| parsed_key(c));
    let ak = anki.map_values(|c: CardInfoView| stored_key(c));
    lemma_matching_counts(pk, ak, pk.len() as int);
    let (am, pm) = matching(pk, ak, pk.len() as int);
    lemma_select_and_count(parsed, pm, parsed.len() as int);
    lemma_select_and_count(anki, am, anki.len() as int);
    assert(doc_views(d.to_add@).len() == d.to_add@.len());
}

proof fn lemma_first_free_none(ak: Seq<ContentKey>, am: Seq<bool>, k: ContentKey, j: int)
    requires
        0 <= j,
        am.len() == ak.len(),
        first_free(ak, am, k, j) is None,
    ensures
        forall|i: int| j <= i < ak.len() ==> am[i] || #[trigger] ak[i] != k,
    decreases ak.len() - j,
{
    if j < ak.len() {
        lemma_first_free_none(ak, am, k, j + 1);
    }
}

/// No unmatched parsed key among the first `n` equals an unmatched stored key.
proof fn lemma_unmatched_keys_differ(pk: Seq<ContentKey>, ak: Seq<ContentKey>, n: int)
    requires
        0 <= n <= pk.len(),
    ensures
        forall|p: int, a: int|
            #![trigger pk[p], ak[a]]
            0 <= p < n && 0 <= a < ak.len() && !matching(pk, ak, n).1[p] && !matching(pk, ak, n).0[a] ==> pk[p]
                != ak[a],
    decreases n,
{
    if n > 0 {
        lemma_unmatched_keys_differ(pk, ak, n - 1);
        lemma_matching_counts(pk, ak, n - 1);
        let (am, pm) = matching(pk, ak, n - 1);
        lemma_first_free(ak, am, pk[n - 1], 0);
        let (am2, pm2) = matching(pk, ak, n);
        if first_free(ak, am, pk[n - 1], 0) is None {
            lemma_first_free_none(ak, am, pk[n - 1], 0);
        }
        assert forall|p: int, a: int|
            #![trigger pk[p], ak[a]]
            0 <= p < n && 0 <= a < ak.len() && !matching(pk, ak, n).1[p] && !matching(pk, ak, n).0[a] implies pk[p]
                != ak[a] by {
            match first_free(ak, am, pk[n - 1], 0) {
                Some(j) => {
                    assert(am2 == am.update(j, true) && pm2 == pm.update(n - 1, true));
                    assert(!am[a]);
                    if p < n - 1 {
                        assert(pm[p] == pm2[p]);
                        assert(!matching(pk, ak, n - 1).1[p] && !matching(pk, ak, n - 1).0[a]);
                        assert(pk[p] != ak[a]);
                    } else {
                        assert(pm2[n - 1]);
                        assert(false);
                    }
                },
                None => {
                    assert(am2 == am && pm2 == pm);
                    if p < n - 1 {
                        assert(!matching(pk, ak, n - 1).1[p] && !matching(pk, ak, n - 1).0[a]);
                        assert(pk[p] != ak[a]);
                    } else {
                        assert(!am[a]);
                        assert(am[a] || ak[a] != pk[n - 1]);
                        assert(pk[p] != ak[a]);
                    }
                },
            }
        }
    }
}

/// How many of the first `n` keys are `k`.
pub open spec fn count_key(s: Seq<ContentKey>, k: ContentKey, n: int) -> nat
    decreases n,
{
    if n <= 0 {
        0
    } else {
        count_key(s, k, n - 1) + if s[n - 1] == k {
            1nat
        } else {
            0nat
        }
    }
}

/// How many earlier keys equal key `i`: its rank among the keys like it.
pub open spec fn key_rank(s: Seq<ContentKey>, i: int) -> nat {
    count_key(s, s[i], i)
}

proof fn lemma_count_key_mono(s: Seq<ContentKey>, k: ContentKey, a: int, b: int)
    requires
        0 <= a <= b,
    ensures
        count_key(s, k, a) <= count_key(s, k, b),
    decreases b - a,
{
    if a < b {
        lemma_count_key_mono(s, k, a, b - 1);
    }
}

/// Of two positions with one key, the later has the higher rank; every
/// rank is below the key's count.
proof fn lemma_rank_order(s: Seq<ContentKey>, i: int, j: int)
    requires
        0 <= i < s.len(),
        0 <= j < s.len(),
    ensures
        key_rank(s, i) < count_key(s, s[i], s.len() as int),
        i < j && s[i] == s[j] ==> key_rank(s, i) < key_rank(s, j),
{
    lemma_count_key_mono(s, s[i], i + 1, s.len() as int);
    if i < j {
        lemma_count_key_mono(s, s[i], i + 1, j);
    }
}

/// Each rank below the count is taken by some position.
proof fn lemma_rank_exists(s: Seq<ContentKey>, k: ContentKey, c: nat, n: int)
    requires
        0 <= n <= s.len(),
        c < count_key(s, k, n),
    ensures
        exists|j: int| 0 <= j < n && s[j] == k && #[trigger] key_rank(s, j) == c,
    decreases n,
{
    if c < count_key(s, k, n - 1) {
        lemma_rank_exists(s, k, c, n - 1);
    } else {
        assert(s[n - 1] == k && key_rank(s, n - 1) == c);
    }
}

proof fn lemma_first_free_first(ak: Seq<ContentKey>, am: Seq<bool>, k: ContentKey, j: int)
    requires
        0 <= j,
        am.len() == ak.len(),
        first_free(ak, am, k, j) is Some,
    ensures
        forall|i: int| j <= i < first_free(ak, am, k, j)->0 ==> am[i] || #[trigger] ak[i] != k,
    decreases ak.len() - j,
{
    if j < ak.len() && !(!am[j] && ak[j] == k) {
        lemma_first_free_first(ak, am, k, j + 1);
    }
}

/// After `n` parsed keys, a stored key is matched iff fewer earlier stored
/// keys are like it than parsed keys so far, and a parsed key iff fewer
/// earlier parsed keys are like it than stored keys.
proof fn lemma_matching_ranks(pk: Seq<ContentKey>, ak: Seq<ContentKey>, n: int)
    requires
        0 <= n <= pk.len(),
    ensures
        forall|j: int|
            0 <= j < ak.len() ==> (#[trigger] matching(pk, ak, n).0[j] <==> key_rank(ak, j) < count_key(pk, ak[j], n)),
        forall|i: int|
            0 <= i < n ==> (#[trigger] matching(pk, ak, n).1[i] <==> key_rank(pk, i) < count_key(
                ak,
                pk[i],
                ak.len() as int,
            )),
    decreases n,
{
    lemma_matching_counts(pk, ak, n);
    if n > 0 {
        lemma_matching_ranks(pk, ak, n - 1);
        lemma_matching_counts(pk, ak, n - 1);
        let (am, pm) = matching(pk, ak, n - 1);
        let x = pk[n - 1];
        let c = count_key(pk, x, n - 1);
        assert(key_rank(pk, n - 1) == c);
        lemma_first_free(ak, am, x, 0);
        match first_free(ak, am, x, 0) {
            Some(js) => {
                lemma_first_free_first(ak, am, x, 0);
                lemma_rank_order(ak, js, js);
                if key_rank(ak, js) != c {
                    assert(key_rank(ak, js) > c);
                    lemma_rank_exists(ak, x, c, ak.len() as int);
                    let j0 = choose|j: int| 0 <= j < ak.len() && ak[j] == x && #[trigger] key_rank(ak, j) == c;
                    lemma_rank_order(ak, js, j0);
                    lemma_rank_order(ak, j0, js);
                    assert(!am[j0]);
                    assert(false);
                }
                assert forall|j: int| 0 <= j < ak.len() implies (#[trigger] matching(pk, ak, n).0[j] <==> key_rank(ak, j)
                    < count_key(pk, ak[j], n)) by {
                    if ak[j] == x && j != js {
                        lemma_rank_order(ak, j, js);
                        lemma_rank_order(ak, js, j);
                    }
                }
                assert forall|i: int| 0 <= i < n implies (#[trigger] matching(pk, ak, n).1[i] <==> key_rank(pk, i)
                    < count_key(ak, pk[i], ak.len() as int)) by {
                    if i == n - 1 {
                        lemma_rank_order(ak, js, js);
                    }
                }
            },
            None => {
                lemma_first_free_none(ak, am, x, 0);
                assert forall|i: int| 0 <= i < n implies (#[trigger] matching(pk, ak, n).1[i] <==> key_rank(pk, i)
                    < count_key(ak, pk[i], ak.len() as int)) by {
                    if i == n - 1 && c < count_key(ak, x, ak.len() as int) {
                        lemma_rank_exists(ak, x, c, ak.len() as int);
                        let j0 = choose|j: int| 0 <= j < ak.len() && ak[j] == x && #[trigger] key_rank(ak, j) == c;
                        assert(am[j0]);
                    }
                }
                assert forall|j: int| 0 <= j < ak.len() implies (#[trigger] matching(pk, ak, n).0[j] <==> key_rank(ak, j)
                    < count_key(pk, ak[j], n)) by {
                    if ak[j] == x {
                        assert(am[j]);
                    }
                }
            },
        }
    }
}

/// Cards are paired by content, first with first: of the parsed cards and
/// notes with one content (note type and fields), `p` and `q` in number,
/// the first `min(p, q)` of each are matched and stay; the rest of the
/// parsed cards are added and the rest of the notes deleted. A parsed card
/// is matched iff fewer earlier parsed cards have its content than notes
/// do, and a note iff fewer earlier notes have its content than parsed
/// cards do.
pub proof fn incremental_diff_pairs_first_of_each_content(
    parsed: Seq<CardView>,
    anki: Seq<CardInfoView>,
    d: IncrementalDiff,
)
    requires
        diff_matches(d, parsed, anki),
    ensures
        ({
            let pk = parsed.map_values(|c: CardView| parsed_key(c));
            let ak = anki.map_values(|c: CardInfoView| stored_key(c));
            let (am, pm) = matching(pk, ak, pk.len() as int);
            &&& forall|i: int|
                0 <= i < pk.len() ==> (#[trigger] pm[i] <==> key_rank(pk, i) < count_key(ak, pk[i], ak.len() as int))
            &&& forall|j: int|
                0 <= j < ak.len() ==> (#[trigger] am[j] <==> key_rank(ak, j) < count_key(pk, ak[j], pk.len() as int))
        }),
{
    let pk = parsed.map_values(|c: CardView| parsed_key(c));
    let ak = anki.map_values(|c: CardInfoView| stored_key(c));
    lemma_matching_ranks(pk, ak, pk.len() as int);
}

/// Cards are matched by content: no parsed card is added while a note with
/// the same content (note type and fields) is deleted.
pub proof fn incremental_diff_matches_by_content(parsed: Seq<CardView>, anki: Seq<CardInfoView>, d: IncrementalDiff)
    requires
        diff_matches(d, parsed, anki),
    ensures
        ({
            let pk = parsed.map_values(|c: CardView| parsed_key(c));
            let ak = anki.map_values(|c: CardInfoView| stored_key(c));
            let (am, pm) = matching(pk, ak, pk.len() as int);
            forall|p: int, a: int|
                #![trigger parsed[p], anki[a]]
                0 <= p < parsed.len() && 0 <= a < anki.len() && !pm[p] && !am[a] ==> parsed_key(parsed[p])
                    != stored_key(anki[a])
        }),
{
    let pk = parsed.map_values(|c: CardView| parsed_key(c));
    let ak = anki.map_values(|c: CardInfoView| stored_key(c));
    lemma_unmatched_keys_differ(pk, ak, pk.len() as int);
    lemma_matching_counts(pk, ak, pk.len() as int);
    let (am, pm) = matching(pk, ak, pk.len() as int);
    assert forall|p: int, a: int|
        #![trigger parsed[p], anki[a]]
        0 <= p < parsed.len() && 0 <= a < anki.len() && !pm[p] && !am[a] implies parsed_key(parsed[p])
            != stored_key(anki[a]) by {
        assert(pk[p] == parsed_key(parsed[p]));
        assert(ak[a] == stored_key(anki[a]));
        assert(!matching(pk, ak, pk.len() as int).1[p] && !matching(pk, ak, pk.len() as int).0[a]);
    }
}

pub(crate) proof fn lemma_all_set(flags: Seq<bool>, n: int)
    requires
        0 <= n <= flags.len(),
        forall|i: int| 0 <= i < flags.len() ==> flags[i],
    ensures
        count_set(flags, n) == n,
    decreases n,
{
    if n > 0 {
        lemma_all_set(flags, n - 1);
    }
}

/// The planner card of a parsed card.
pub fn to_planner_card(card: &Card) -> (r: PlannerCard)
    ensures
        r.card_type == planner_type(card.card_type),
        r.fields.deep_view() == card.fields.deep_view(),
{
    let card_type = match card.card_type {
        CardType::Basic => PlannerCardType::Basic,
        CardType::Bidirectional => PlannerCardType::Bidirectional,
        CardType::Sequence => PlannerCardType::Sequence,
    };
    PlannerCard { card_type, fields: crate::anki_wrapper::types::copy_strings(&card.fields) }
}

/// Equality of content keys.
fn same_key(t1: AnkiCardType, f1: &Vec<String>, t2: AnkiCardType, f2: &Vec<String>) -> (r: bool)
    ensures
        r == ((t1, f1.deep_view()) == (t2, f2.deep_view())),
{
    if t1 != t2 || f1.len() != f2.len() {
        proof {
            if f1.len() != f2.len() {
                assert(f1.deep_view().len() != f2.deep_view().len());
            }
        }
        return false;
    }
    let mut i: usize = 0;
    while i < f1.len()
        invariant
            0 <= i <= f1.len(),
            f1.len() == f2.len(),
            forall|j: int| 0 <= j < i ==> f1@[j]@ == f2@[j]@,
        decreases f1.len() - i,
    {
        if f1[i] != f2[i] {
            assert(f1.deep_view()[i as int] != f2.deep_view()[i as int]);
            return false;
        }
        i = i + 1;
    }
    assert(f1.deep_view() =~= f2.deep_view());
    true
}

/// The diff between parsed cards and the notes of a deck, matched by
/// content: each parsed card takes the first unmatched equal note.
pub fn compute_incremental_diff(parsed_cards: &Vec<Card>, anki_cards: &Vec<CardInfo>) -> (r: IncrementalDiff)
    ensures
        diff_matches(r, doc_views(parsed_cards@), info_views(anki_cards@)),
{
    let ghost parsed = doc_views(parsed_cards@);
    let ghost anki = info_views(anki_cards@);
    let ghost pk = parsed.map_values(|c: CardView| parsed_key(c));
    let ghost ak = anki.map_values(|c: CardInfoView| stored_key(c));
    let mut parsed_types: Vec<AnkiCardType> = Vec::new();
    let mut parsed_fields: Vec<Vec<String>> = Vec::new();
    let mut i: usize = 0;
    while i < parsed_cards.len()
        invariant
            0 <= i <= parsed_cards.len(),
            parsed == doc_views(parsed_cards@),
            pk == parsed.map_values(|c: CardView| parsed_key(c)),
            parsed_types.len() == i,
            parsed_fields.len() == i,
            forall|j: int| 0 <= j < i ==> (#[trigger] parsed_types@[j], parsed_fields@[j].deep_view()) == pk[j],
        decreases parsed_cards.len() - i,
    {
        let converted = convert_card(&to_planner_card(&parsed_cards[i]));
        parsed_types.push(converted.card_type);
        parsed_fields.push(converted.fields);
        i = i + 1;
    }
    let mut anki_matched: Vec<bool> = Vec::new();
    while anki_matched.len() < anki_cards.len()
        invariant
            anki_matched.len() <= anki_cards.len(),
            forall|j: int| 0 <= j < anki_matched.len() ==> !(#[trigger] anki_matched@[j]),
        decreases anki_cards.len() - anki_matched.len(),
    {
        anki_matched.push(false);
    }
    let mut parsed_matched: Vec<bool> = Vec::new();
    while parsed_matched.len() < parsed_cards.len()
        invariant
            parsed_matched.len() <= parsed_cards.len(),
            forall|j: int| 0 <= j < parsed_matched.len() ==> !(#[trigger] parsed_matched@[j]),
        decreases parsed_cards.len() - parsed_matched.len(),
    {
        parsed_matched.push(false);
    }
    assert(anki_matched@ =~= matching(pk, ak, 0).0);
    assert(parsed_matched@ =~= matching(pk, ak, 0).1);
    let mut pi: usize = 0;
    while pi < parsed_cards.len()
        invariant
            0 <= pi <= parsed_cards.len(),
            parsed_types.len() == parsed_cards.len(),
            parsed_fields.len() == parsed_cards.len(),
            anki == info_views(anki_cards@),
            ak == anki.map_values(|c: CardInfoView| stored_key(c)),
            pk.len() == parsed_cards.len(),
            forall|j: int| 0 <= j < parsed_cards.len() ==> (#[trigger] parsed_types@[j], parsed_fields@[j].deep_view()) == pk[j],
            anki_matched@ == matching(pk, ak, pi as int).0,
            parsed_matched@ == matching(pk, ak, pi as int).1,
            anki_matched.len() == anki_cards.len(),
            parsed_matched.len() == parsed_cards.len(),
        decreases parsed_cards.len() - pi,
    {
        let ghost am0 = anki_matched@;
        let mut ai: usize = 0;
        let mut found = false;
        while ai < anki_cards.len()
            invariant_except_break
                !found,
            invariant
                0 <= ai <= anki_cards.len(),
                anki_matched@ == am0,
                anki_matched.len() == anki_cards.len(),
                pi < parsed_cards.len(),
                parsed_types.len() == parsed_cards.len(),
                parsed_fields.len() == parsed_cards.len(),
                anki == info_views(anki_cards@),
                ak == anki.map_values(|c: CardInfoView| stored_key(c)),
                (parsed_types@[pi as int], parsed_fields@[pi as int].deep_view()) == pk[pi as int],
                first_free(ak, am0, pk[pi as int], 0) == first_free(ak, am0, pk[pi as int], ai as int),
            ensures
                anki_matched@ == am0,
                found ==> ai < anki_cards.len() && first_free(ak, am0, pk[pi as int], 0) == Some(ai as int),
                !found ==> first_free(ak, am0, pk[pi as int], 0) is None,
            decreases anki_cards.len() - ai,
        {
            assert(ak[ai as int] == (anki_cards@[ai as int].card_type, anki_cards@[ai as int].fields.deep_view()));
            if !anki_matched[ai] && same_key(parsed_types[pi], &parsed_fields[pi], anki_cards[ai].card_type, &anki_cards[ai].fields) {
                found = true;
                break ;
            }
            ai = ai + 1;
        }
        if found {
            anki_matched.set(ai, true);
            parsed_matched.set(pi, true);
        }
        pi = pi + 1;
    }
    let ghost (am, pm) = matching(pk, ak, pk.len() as int);
    let mut to_add: Vec<Card> = Vec::new();
    let mut unchanged: usize = 0;
    let mut k: usize = 0;
    while k < parsed_cards.len()
        invariant
            0 <= k <= parsed_cards.len(),
            parsed == doc_views(parsed_cards@),
            parsed_matched@ == pm,
            pm.len() == parsed_cards.len(),
            doc_views(to_add@) == select(parsed, pm, false, k as int),
            unchanged == count_set(pm, k as int),
            unchanged <= k,
        decreases parsed_cards.len() - k,
    {
        if parsed_matched[k] {
            unchanged = unchanged + 1;
        } else {
            let c = crate::doc_parser::types::copy_card(&parsed_cards[k]);
            let ghost b = to_add@;
            to_add.push(c);
            assert(doc_views(to_add@) =~= doc_views(b).push(c@));
        }
        k = k + 1;
    }
    let mut to_delete: Vec<NoteId> = Vec::new();
    let mut k: usize = 0;
    while k < anki_cards.len()
        invariant
            0 <= k <= anki_cards.len(),
            anki == info_views(anki_cards@),
            anki_matched@ == am,
            am.len() == anki_cards.len(),
            to_delete@ == note_ids(select(anki, am, false, k as int)),
        decreases anki_cards.len() - k,
    {
        if !anki_matched[k] {
            let ghost b = select(anki, am, false, k as int);
            to_delete.push(anki_cards[k].note_id);
            assert(note_ids(b.push(anki[k as int])) =~= note_ids(b).push(anki_cards@[k as int].note_id));
        }
        k = k + 1;
    }
    IncrementalDiff { to_add, to_delete, unchanged }
}

/// Counts of what an incremental sync did.
pub struct SyncCounts {
    pub added: usize,
    pub deleted: usize,
    pub unchanged: usize,
}

/// The counts of the diff between parsed cards and the notes read.
pub open spec fn counts_of(parsed: Seq<CardView>, anki: Seq<CardInfoView>) -> (nat, nat, nat) {
    let pk = parsed.map_values(|c: CardView| parsed_key(c));
    let ak = anki.map_values(|c: CardInfoView| stored_key(c));
    let (am, pm) = matching(pk, ak, pk.len() as int);
    (
        select(parsed, pm, false, parsed.len() as int).len(),
        select(anki, am, false, anki.len() as int).len(),
        count_set(pm, pm.len() as int),
    )
}

/// The decks after deleting the notes, in order.
pub open spec fn after_deletes(m: Map<Seq<char>, Seq<CardInfoView>>, ids: Seq<NoteId>) -> Map<
    Seq<char>,
    Seq<CardInfoView>,
>
    decreases ids.len(),
{
    if ids.len() == 0 {
        m
    } else {
        crate::anki_wrapper::decks::without_note(after_deletes(m, ids.drop_last()), ids.last())
    }
}

/// Each model is the previous one with a note added to the deck for the
/// next card.
pub open spec fn adds_chain(
    ms: Seq<Map<Seq<char>, Seq<CardInfoView>>>,
    deck: Seq<char>,
    cards: Seq<CardView>,
) -> bool {
    &&& ms.len() == cards.len() + 1
    &&& forall|i: int|
        0 <= i < cards.len() ==> note_added(
            #[trigger] ms[i],
            ms[i + 1],
            deck,
            parsed_key(cards[i]).0,
            parsed_key(cards[i]).1,
        )
}

/// What a successful sync did, given the notes it read (`anki`) and the
/// decks after each addition (`ms`): the deck was ensured, its notes read,
/// the unmatched ones deleted, a note added per unmatched parsed card, and
/// the counts are those of the matching.
pub open spec fn synced(
    m0: Map<Seq<char>, Seq<CardInfoView>>,
    deck: Seq<char>,
    parsed: Seq<CardView>,
    anki: Seq<CardInfoView>,
    ms: Seq<Map<Seq<char>, Seq<CardInfoView>>>,
    m_final: Map<Seq<char>, Seq<CardInfoView>>,
    counts: (nat, nat, nat),
) -> bool {
    let m1 = ensured(m0, deck);
    let pk = parsed.map_values(|x: CardView| parsed_key(x));
    let ak = anki.map_values(|x: CardInfoView| stored_key(x));
    let (am, pm) = matching(pk, ak, pk.len() as int);
    &&& anki == notes_of(m1[deck])
    &&& counts_of(parsed, anki) == counts
    &&& ms[0] == after_deletes(m1, note_ids(select(anki, am, false, anki.len() as int)))
    &&& adds_chain(ms, deck, select(parsed, pm, false, parsed.len() as int))
    &&& ms.last() == m_final
}

/// "Failed to …: " and the error's message.
pub open spec fn failure_message(what: Seq<char>, e: AnkiWrapperError) -> Seq<char> {
    "Failed to "@ + what + ": "@ + anki_error_message(e)
}

/// `m` reports a step of a sync that the collection refused with `e`:
/// ensuring the deck, reading it (with an error that does not say "not
/// found"), deleting a note or adding one.
pub open spec fn sync_failed_with(m: Seq<char>, e: AnkiWrapperError) -> bool {
    ||| m == failure_message("ensure deck"@, e)
    ||| m == failure_message("read deck"@, e) && !says_not_found(e)
    ||| m == failure_message("delete card"@, e)
    ||| m == failure_message("add card"@, e)
}

/// `m` reports a step of a sync that the collection refused.
pub open spec fn sync_failure(m: Seq<char>) -> bool {
    exists|e: AnkiWrapperError| #[trigger] sync_failed_with(m, e)
}

fn failure(what: &str, e: &AnkiWrapperError) -> (r: String)
    ensures
        r@ == failure_message(what@, *e),
{
    let mut m = chars_of("Failed to ");
    push_str(&mut m, what);
    push_str(&mut m, ": ");
    let msg = e.to_string();
    push_str(&mut m, msg.as_str());
    string_of(&m)
}

/// Syncs a deck with parsed cards: the deck is created if needed, its notes
/// are read and matched by content, the unmatched notes are deleted and the
/// unmatched parsed cards added. Matched notes, and their reviews, stay.
#[verifier::spinoff_prover]
pub fn sync_incremental<C: AnkiWrapperCollection>(
    parsed_cards: &Vec<Card>,
    deck_name: &str,
    adapter: &mut AnkiCollectionAdapter<C>,
) -> (r: Result<SyncCounts, String>)
    requires
        old(adapter).inner_view().well_formed(),
    ensures
        final(adapter).inner_view().well_formed(),
        r matches Ok(c) ==> exists|anki: Seq<CardInfoView>, ms: Seq<Map<Seq<char>, Seq<CardInfoView>>>|
            #[trigger] synced(
                old(adapter).inner_view().deck_model(),
                deck_name@,
                doc_views(parsed_cards@),
                anki,
                ms,
                final(adapter).inner_view().deck_model(),
                (c.added as nat, c.deleted as nat, c.unchanged as nat),
            ),
        r matches Err(m) ==> sync_failure(m@),
{
    if let Err(e) = adapter.ensure_deck(deck_name) {
        let m = failure("ensure deck", &e);
        assert(sync_failed_with(m@, e));
        assert(sync_failure(m@));
        return Err(m);
    }
    let ghost m1 = adapter.inner_view().deck_model();
    let anki_cards = match adapter.get_cards_in_deck(deck_name) {
        Ok(v) => v,
        Err(e) => {
            let m = failure("read deck", &e);
            assert(sync_failed_with(m@, e));
            assert(sync_failure(m@));
            return Err(m);
        },
    };
    let ghost anki = info_views(anki_cards@);
    let diff = compute_incremental_diff(parsed_cards, &anki_cards);
    let ghost ids = diff.to_delete@;
    let mut k: usize = 0;
    while k < diff.to_delete.len()
        invariant
            0 <= k <= diff.to_delete.len(),
            ids == diff.to_delete@,
            adapter.inner_view().well_formed(),
            adapter.inner_view().deck_model() == after_deletes(m1, ids.take(k as int)),
        decreases diff.to_delete.len() - k,
    {
        if let Err(e) = adapter.delete_note_by_id(diff.to_delete[k]) {
            let m = failure("delete card", &e);
            assert(sync_failed_with(m@, e));
            assert(sync_failure(m@));
            return Err(m);
        }
        assert(ids.take(k + 1).drop_last() =~= ids.take(k as int));
        k = k + 1;
    }
    assert(ids.take(ids.len() as int) =~= ids);
    let ghost m2 = adapter.inner_view().deck_model();
    let ghost adds = doc_views(diff.to_add@);
    let ghost mut ms: Seq<Map<Seq<char>, Seq<CardInfoView>>> = seq![m2];
    let mut k: usize = 0;
    while k < diff.to_add.len()
        invariant
            0 <= k <= diff.to_add.len(),
            adds == doc_views(diff.to_add@),
            adapter.inner_view().well_formed(),
            ms[0] == m2,
            adds_chain(ms, deck_name@, adds.take(k as int)),
            ms.last() == adapter.inner_view().deck_model(),
        decreases diff.to_add.len() - k,
    {
        let planner_card = to_planner_card(&diff.to_add[k]);
        let ghost before = adapter.inner_view().deck_model();
        if let Err(e) = adapter.add_card_to_deck(deck_name, &planner_card) {
            let m = failure("add card", &e);
            assert(sync_failed_with(m@, e));
            assert(sync_failure(m@));
            return Err(m);
        }
        proof {
            let after = adapter.inner_view().deck_model();
            assert(adds[k as int] == diff.to_add@[k as int]@);
            let ms2 = ms.push(after);
            assert(adds.take(k + 1).drop_last() =~= adds.take(k as int));
            assert forall|i: int| 0 <= i < k + 1 implies note_added(
                #[trigger] ms2[i],
                ms2[i + 1],
                deck_name@,
                parsed_key(adds.take(k + 1)[i]).0,
                parsed_key(adds.take(k + 1)[i]).1,
            ) by {
                if i < k {
                    assert(adds.take(k + 1)[i] == adds.take(k as int)[i]);
                    assert(ms2[i] == ms[i] && ms2[i + 1] == ms[i + 1]);
                } else {
                    assert(ms2[i] == before);
                }
            }
            ms = ms2;
        }
        k = k + 1;
    }
    assert(adds.take(adds.len() as int) =~= adds);
    let counts = SyncCounts {
        added: diff.to_add.len(),
        deleted: diff.to_delete.len(),
        unchanged: diff.unchanged,
    };
    assert(synced(
        old(adapter).inner_view().deck_model(),
        deck_name@,
        doc_views(parsed_cards@),
        anki,
        ms,
        adapter.inner_view().deck_model(),
        (counts.added as nat, counts.deleted as nat, counts.unchanged as nat),
    ));
    let r: Result<SyncCounts, String> = Ok(counts);
    assert(r matches Ok(c) && c == counts);
    r
}

/// Counts of a validation run.
#[derive(Debug, Clone)]
pub struct ValidationResult {
    pub total_files: usize,
    pub files_with_cards: usize,
}

/// The cards a sync would send.
#[derive(Debug, Clone)]
pub struct PreviewResult {
    pub files_processed: usize,
    pub deck_name: String,
    pub cards: Vec<Card>,
}

/// What a sync reads and where it sends the cards.
#[derive(Debug, Clone)]
pub struct SyncConfig {
    pub source_dirs: Vec<String>,
    pub deck_name: String,
    pub anki_collection_path: Option<String>,
    pub anki_media_dir: Option<String>,
    pub recursive: bool,
    pub dry_run: bool,
}

impl Default for SyncConfig {
    fn default() -> (r: SyncConfig)
        ensures
            r.source_dirs@.len() == 0 && r.deck_name@.len() == 0 && r.anki_collection_path is None
                && r.anki_media_dir is None && !r.recursive && !r.dry_run,
    {
        SyncConfig {
            source_dirs: Vec::new(),
            deck_name: String::new(),
            anki_collection_path: None,
            anki_media_dir: None,
            recursive: false,
            dry_run: false,
        }
    }
}

/// What a validation reads.
#[derive(Debug, Clone)]
pub struct ValidationConfig {
    pub source_dirs: Vec<String>,
    pub recursive: bool,
}

/// A document that was read: its path, its directory and its text.
#[derive(Debug, Clone)]
pub struct SourceDocument {
    pub path: String,
    pub dir: String,
    pub content: String,
}

/// The cards, sources, media and warnings of a set of documents.
pub struct ParsedBatch {
    pub cards: Vec<Card>,
    /// Paths of the documents that hold cards.
    pub source_files: Vec<String>,
    /// Per document with cards: its directory and its media references.
    pub media_with_dirs: Vec<(String, Vec<MediaReference>)>,
    /// Per warning: the document's path and the warning.
    pub warnings: Vec<(String, Warning)>,
}

/// The value of a batch.
pub struct BatchView {
    pub cards: Seq<CardView>,
    pub source_files: Seq<Seq<char>>,
    pub media: Seq<(Seq<char>, Seq<(Seq<char>, Seq<char>, Option<Seq<char>>)>)>,
    pub warnings: Seq<(Seq<char>, (usize, Seq<char>))>,
}

/// The message of a parse failure.
pub open spec fn outcome_message(o: ParseOutcome) -> Seq<char> {
    match o {
        ParseOutcome::TemplateErr(m) => "Template error: "@ + m,
        ParseOutcome::MediaErr(n, m) => "Invalid media name '"@ + n + "' at line "@ + crate::text::dec(0)
            + ": "@ + m,
        ParseOutcome::Empty => "Document contains no cards"@,
        ParseOutcome::Doc(_, _, _) => seq![],
    }
}

/// Each warning of a document, with the document's path.
pub open spec fn tagged(path: Seq<char>, w: Seq<(usize, Seq<char>)>) -> Seq<(Seq<char>, (usize, Seq<char>))> {
    w.map_values(|x: (usize, Seq<char>)| (path, x))
}

/// The batch of the first `n` documents: documents without cards are
/// skipped; the first document that fails to parse ends it with
/// `path: message`.
pub open spec fn batch_upto(docs: Seq<SourceDocument>, n: int) -> Result<BatchView, Seq<char>>
    decreases n,
{
    if n <= 0 {
        Ok(BatchView { cards: seq![], source_files: seq![], media: seq![], warnings: seq![] })
    } else {
        match batch_upto(docs, n - 1) {
            Err(e) => Err(e),
            Ok(b) => {
                let d = docs[n - 1];
                match parse_outcome(d.content@) {
                    ParseOutcome::Empty => Ok(b),
                    ParseOutcome::Doc(c, me, w) => Ok(
                        BatchView {
                            cards: b.cards + c,
                            source_files: b.source_files.push(d.path@),
                            media: b.media.push((d.dir@, me)),
                            warnings: b.warnings + tagged(d.path@, w),
                        },
                    ),
                    o => Err(d.path@ + ": "@ + outcome_message(o)),
                }
            },
        }
    }
}

/// The media references of all documents, in order.
pub open spec fn all_media(m: Seq<(Seq<char>, Seq<(Seq<char>, Seq<char>, Option<Seq<char>>)>)>, n: int) -> Seq<(Seq<char>, Seq<char>, Option<Seq<char>>)>
    decreases n,
{
    if n <= 0 {
        seq![]
    } else {
        all_media(m, n - 1) + m[n - 1].1
    }
}

/// Some two references of the batch store different files under one name.
pub open spec fn has_collision(b: BatchView) -> bool {
    exists|i: int, j: int| collides(all_media(b.media, b.media.len() as int), i, j)
}

/// Files copied, over the copy reports.
pub open spec fn copied_total(reports: Seq<CopyReport>) -> nat
    decreases reports.len(),
{
    if reports.len() == 0 {
        0
    } else {
        copied_total(reports.drop_last()) + reports.last().copied as nat
    }
}

/// Files skipped, over the copy reports.
pub open spec fn skipped_total(reports: Seq<CopyReport>) -> nat
    decreases reports.len(),
{
    if reports.len() == 0 {
        0
    } else {
        skipped_total(reports.drop_last()) + reports.last().skipped as nat
    }
}

/// Source files not found, over the copy reports.
pub open spec fn missing_total(reports: Seq<CopyReport>) -> nat
    decreases reports.len(),
{
    if reports.len() == 0 {
        0
    } else {
        missing_total(reports.drop_last()) + reports.last().missing@.len()
    }
}

/// A sum that stops at the largest `usize`.
pub open spec fn capped_sum(a: nat, b: nat) -> nat {
    if a + b > usize::MAX {
        usize::MAX as nat
    } else {
        a + b
    }
}

/// What a real sync reports: the documents, the deck, the counts of the
/// incremental sync (cards synced being those added and deleted) and the
/// media totals.
pub open spec fn synced_result(
    s: SyncResult,
    files: nat,
    deck: Seq<char>,
    reports: Seq<CopyReport>,
) -> bool {
    &&& s.files_processed == files
    &&& s.deck_name@ == deck
    &&& !s.dry_run
    &&& s.cards_synced == capped_sum(s.cards_added as nat, s.cards_deleted as nat)
    &&& s.media_copied == copied_total(reports)
    &&& s.media_skipped == skipped_total(reports)
    &&& s.media_missing == missing_total(reports)
}

/// The totals of the copy reports: files copied, skipped and missing.
pub fn media_totals(reports: &Vec<CopyReport>) -> (r: (usize, usize, usize))
    requires
        copied_total(reports@) <= usize::MAX,
        skipped_total(reports@) <= usize::MAX,
        missing_total(reports@) <= usize::MAX,
    ensures
        r.0 == copied_total(reports@),
        r.1 == skipped_total(reports@),
        r.2 == missing_total(reports@),
{
    let mut copied: usize = 0;
    let mut skipped: usize = 0;
    let mut missing: usize = 0;
    let mut i: usize = 0;
    while i < reports.len()
        invariant
            0 <= i <= reports.len(),
            copied_total(reports@) <= usize::MAX,
            skipped_total(reports@) <= usize::MAX,
            missing_total(reports@) <= usize::MAX,
            copied == copied_total(reports@.take(i as int)),
            skipped == skipped_total(reports@.take(i as int)),
            missing == missing_total(reports@.take(i as int)),
        decreases reports.len() - i,
    {
        proof {
            lemma_totals_grow(reports@, i as int + 1);
            assert(reports@.take(i + 1).drop_last() =~= reports@.take(i as int));
        }
        copied = copied + reports[i].copied;
        skipped = skipped + reports[i].skipped;
        missing = missing + reports[i].missing.len();
        i = i + 1;
    }
    assert(reports@.take(reports.len() as int) =~= reports@);
    (copied, skipped, missing)
}

/// The totals over a prefix are at most those over the whole.
proof fn lemma_totals_grow(reports: Seq<CopyReport>, n: int)
    requires
        0 <= n <= reports.len(),
    ensures
        copied_total(reports.take(n)) <= copied_total(reports),
        skipped_total(reports.take(n)) <= skipped_total(reports),
        missing_total(reports.take(n)) <= missing_total(reports),
    decreases reports.len() - n,
{
    if n < reports.len() {
        lemma_totals_grow(reports, n + 1);
        assert(reports.take(n + 1).drop_last() =~= reports.take(n));
    } else {
        assert(reports.take(n) =~= reports);
    }
}

/// Commands over documents.
#[derive(Default)]
pub struct AnkiCli {
    parser: MarkdownParser,
}

impl AnkiCli {
    /// A command runner with the Markdown parser.
    pub fn new() -> (r: AnkiCli) {
        AnkiCli { parser: MarkdownParser::new() }
    }

    /// The Markdown files of the sources, sorted and without repeats.
    pub fn discover_files(&self, sources: &Vec<crate::discovery::SourceListing>) -> (r: Result<
        Vec<String>,
        CliError,
    >)
        ensures
            match crate::discovery::markdown_candidates(sources@, sources@.len() as int) {
                Err(p) => r matches Err(CliError::InvalidPath(q)) && q@ == p,
                Ok(found) => r matches Ok(v) && v.deep_view() == crate::discovery::dedup_paths(
                    crate::discovery::sorted_by_path(found, found.len() as int),
                    found.len() as int,
                ),
            },
    {
        crate::discovery::discover_markdown_files(sources)
    }

    /// Whether a path names a Markdown document.
    pub fn is_markdown_file(&self, path: &str) -> (r: bool)
        ensures
            r == crate::discovery::is_markdown(path@),
    {
        crate::discovery::is_markdown_file(path)
    }

    /// Parses documents into one batch.
    pub fn parse_documents(&self, docs: &Vec<SourceDocument>) -> (r: Result<ParsedBatch, CliError>)
        ensures
            match batch_upto(docs@, docs@.len() as int) {
                Ok(b) => r matches Ok(p) && views(p.cards@) == b.cards && p.source_files.deep_view() == b.source_files
                    && batch_media(p.media_with_dirs@) == b.media && batch_warnings(p.warnings@) == b.warnings,
                Err(m) => r matches Err(CliError::ParseError(e)) && e@ == m,
            },
    {
        let mut cards: Vec<Card> = Vec::new();
        let mut source_files: Vec<String> = Vec::new();
        let mut media_with_dirs: Vec<(String, Vec<MediaReference>)> = Vec::new();
        let mut warnings: Vec<(String, Warning)> = Vec::new();
        assert(views(cards@) =~= seq![]);
        assert(source_files.deep_view() =~= seq![]);
        assert(batch_media(media_with_dirs@) =~= seq![]);
        assert(batch_warnings(warnings@) =~= seq![]);
        let mut k: usize = 0;
        while k < docs.len()
            invariant
                0 <= k <= docs.len(),
                batch_upto(docs@, k as int) == Ok::<BatchView, Seq<char>>(BatchView {
                    cards: views(cards@),
                    source_files: source_files.deep_view(),
                    media: batch_media(media_with_dirs@),
                    warnings: batch_warnings(warnings@),
                }),
            decreases docs.len() - k,
        {
            let d = &docs[k];
            match self.parser.parse(d.content.as_str()) {
                Ok(parsed) => {
                    extend_cards(&mut cards, &parsed.cards);
                    let ghost sb = source_files.deep_view();
                    source_files.push(d.path.clone());
                    assert(source_files.deep_view() =~= sb.push(d.path@));
                    let ghost mb = batch_media(media_with_dirs@);
                    let mut media: Vec<MediaReference> = Vec::new();
                    let mut i: usize = 0;
                    while i < parsed.media.len()
                        invariant
                            0 <= i <= parsed.media.len(),
                            media_views(media@) == media_views(parsed.media@).take(i as int),
                        decreases parsed.media.len() - i,
                    {
                        let m = &parsed.media[i];
                        let c = MediaReference {
                            source_path: m.source_path.clone(),
                            target_name: m.target_name.clone(),
                            alt_text: match &m.alt_text {
                                Some(a) => Some(a.clone()),
                                None => None,
                            },
                        };
                        let ghost b = media@;
                        media.push(c);
                        assert(media_views(media@) =~= media_views(b).push(media_view(c)));
                        i = i + 1;
                        assert(media_views(parsed.media@).take(i as int) =~= media_views(parsed.media@).take(i - 1).push(media_view(parsed.media@[i - 1])));
                    }
                    assert(media_views(parsed.media@).take(parsed.media.len() as int) =~= media_views(parsed.media@));
                    let ghost mv = media_views(media@);
                    media_with_dirs.push((d.dir.clone(), media));
                    assert(batch_media(media_with_dirs@) =~= mb.push((d.dir@, mv)));
                    let ghost wb = batch_warnings(warnings@);
                    let mut i: usize = 0;
                    while i < parsed.warnings.len()
                        invariant
                            0 <= i <= parsed.warnings.len(),
                            batch_warnings(warnings@) == wb + tagged(d.path@, warning_views(parsed.warnings@).take(i as int)),
                        decreases parsed.warnings.len() - i,
                    {
                        let w = Warning { line: parsed.warnings[i].line, message: parsed.warnings[i].message.clone() };
                        let ghost b = warnings@;
                        warnings.push((d.path.clone(), w));
                        assert(batch_warnings(warnings@) =~= batch_warnings(b).push((d.path@, w@)));
                        i = i + 1;
                        assert(tagged(d.path@, warning_views(parsed.warnings@).take(i as int)) =~= tagged(d.path@, warning_views(parsed.warnings@).take(i - 1)).push((d.path@, parsed.warnings@[i - 1]@)));
                    }
                    assert(warning_views(parsed.warnings@).take(parsed.warnings.len() as int) =~= warning_views(parsed.warnings@));
                },
                Err(ParseError::EmptyDocument) => {},
                Err(e) => {
                    let mut m = chars_of(d.path.as_str());
                    push_str(&mut m, ": ");
                    let msg = e.to_string();
                    push_str(&mut m, msg.as_str());
                    proof {
                        let o = parse_outcome(d.content@);
                        assert(o is TemplateErr || o is MediaErr);
                        assert(msg@ == outcome_message(o));
                        assert(batch_upto(docs@, k + 1) == Err::<BatchView, Seq<char>>(m@));
                        lemma_batch_err(docs@, k + 1, m@);
                    }
                    return Err(CliError::ParseError(string_of(&m)));
                },
            }
            k = k + 1;
        }
        Ok(ParsedBatch { cards, source_files, media_with_dirs, warnings })
    }

    /// The media references of a batch, all documents together.
    fn flatten_media(batch: &ParsedBatch) -> (r: Vec<MediaReference>)
        ensures
            media_views(r@) == all_media(batch_media(batch.media_with_dirs@), batch.media_with_dirs@.len() as int),
    {
        let ghost bm = batch_media(batch.media_with_dirs@);
        let mut out: Vec<MediaReference> = Vec::new();
        assert(media_views(out@) =~= seq![]);
        let mut k: usize = 0;
        while k < batch.media_with_dirs.len()
            invariant
                0 <= k <= batch.media_with_dirs.len(),
                bm == batch_media(batch.media_with_dirs@),
                media_views(out@) == all_media(bm, k as int),
            decreases batch.media_with_dirs.len() - k,
        {
            let refs = &batch.media_with_dirs[k].1;
            let ghost base = media_views(out@);
            let mut i: usize = 0;
            while i < refs.len()
                invariant
                    0 <= i <= refs.len(),
                    media_views(out@) == base + media_views(refs@).take(i as int),
                decreases refs.len() - i,
            {
                let m = &refs[i];
                let c = MediaReference {
                    source_path: m.source_path.clone(),
                    target_name: m.target_name.clone(),
                    alt_text: match &m.alt_text {
                        Some(a) => Some(a.clone()),
                        None => None,
                    },
                };
                let ghost b = out@;
                out.push(c);
                assert(media_views(out@) =~= media_views(b).push(media_view(c)));
                i = i + 1;
                assert(media_views(refs@).take(i as int) =~= media_views(refs@).take(i - 1).push(media_view(refs@[i - 1])));
            }
            assert(media_views(refs@).take(refs.len() as int) =~= media_views(refs@));
            assert(bm[k as int].1 == media_views(refs@));
            k = k + 1;
        }
        out
    }

    /// A sync of the documents: refused on a parse failure or a media name
    /// collision; a dry run reports the counts and touches nothing; a real
    /// sync runs `sync_incremental` on the collection and reports its counts
    /// with the totals of the media copies made for the documents (a failure
    /// of the collection comes back as an execution error).
    pub fn sync<C: AnkiWrapperCollection>(
        &self,
        config: &SyncConfig,
        docs: &Vec<SourceDocument>,
        media_reports: &Vec<CopyReport>,
        adapter: &mut AnkiCollectionAdapter<C>,
    ) -> (r: Result<SyncResult, CliError>)
        requires
            old(adapter).inner_view().well_formed(),
            copied_total(media_reports@) <= usize::MAX,
            skipped_total(media_reports@) <= usize::MAX,
            missing_total(media_reports@) <= usize::MAX,
        ensures
            final(adapter).inner_view().well_formed(),
            match batch_upto(docs@, docs@.len() as int) {
                Err(m) => r matches Err(CliError::ParseError(e)) && e@ == m && *final(adapter) == *old(adapter),
                Ok(b) => if has_collision(b) {
                    r matches Err(CliError::MediaCollisionError(m)) && reports_first_collision(
                        all_media(b.media, b.media.len() as int),
                        m@,
                    ) && *final(adapter) == *old(adapter)
                } else if config.dry_run {
                    r matches Ok(s) && s.files_processed == docs@.len() && s.cards_synced == b.cards.len()
                        && s.deck_name@ == config.deck_name@ && s.dry_run && s.cards_added == 0
                        && s.cards_deleted == 0 && s.cards_unchanged == 0 && s.media_copied == 0
                        && s.media_skipped == 0 && s.media_missing == 0 && *final(adapter) == *old(adapter)
                } else {
                    match r {
                        Ok(s) => synced_result(s, docs@.len(), config.deck_name@, media_reports@)
                            && exists|anki: Seq<CardInfoView>, ms: Seq<Map<Seq<char>, Seq<CardInfoView>>>|
                            #[trigger] synced(
                                old(adapter).inner_view().deck_model(),
                                config.deck_name@,
                                b.cards,
                                anki,
                                ms,
                                final(adapter).inner_view().deck_model(),
                                (s.cards_added as nat, s.cards_deleted as nat, s.cards_unchanged as nat),
                            ),
                        Err(e) => e matches CliError::ExecutionError(m) && sync_failure(m@),
                    }
                },
            },
    {
        let parsed = match self.parse_documents(docs) {
            Ok(p) => p,
            Err(e) => {
                return Err(e);
            },
        };
        let all = AnkiCli::flatten_media(&parsed);
        assert(batch_media(parsed.media_with_dirs@).len() == parsed.media_with_dirs@.len());
        if let Err(m) = check_media_collisions(&all) {
            return Err(CliError::MediaCollisionError(m));
        }
        if config.dry_run {
            return Ok(SyncResult::new(docs.len(), parsed.cards.len(), config.deck_name.clone(), true));
        }
        let (copied, skipped, missing) = media_totals(media_reports);
        assert(doc_views(parsed.cards@) =~= views(parsed.cards@));
        match sync_incremental(&parsed.cards, config.deck_name.as_str(), adapter) {
            Err(m) => Err(CliError::ExecutionError(m)),
            Ok(counts) => {
                let mut result = SyncResult::new(
                    docs.len(),
                    counts.added.saturating_add(counts.deleted),
                    config.deck_name.clone(),
                    false,
                );
                result.cards_added = counts.added;
                result.cards_deleted = counts.deleted;
                result.cards_unchanged = counts.unchanged;
                result.media_copied = copied;
                result.media_skipped = skipped;
                result.media_missing = missing;
                Ok(result)
            },
        }
    }

    /// The cards that a sync of the documents would send.
    pub fn preview(&self, config: &SyncConfig, docs: &Vec<SourceDocument>) -> (r: Result<PreviewResult, CliError>)
        ensures
            match batch_upto(docs@, docs@.len() as int) {
                Err(m) => r matches Err(CliError::ParseError(e)) && e@ == m,
                Ok(b) => if has_collision(b) {
                    r matches Err(CliError::MediaCollisionError(m)) && reports_first_collision(
                        all_media(b.media, b.media.len() as int),
                        m@,
                    )
                } else {
                    r matches Ok(p) && p.files_processed == docs@.len() && p.deck_name@ == config.deck_name@
                        && views(p.cards@) == b.cards
                },
            },
    {
        let parsed = match self.parse_documents(docs) {
            Ok(p) => p,
            Err(e) => {
                return Err(e);
            },
        };
        let all = AnkiCli::flatten_media(&parsed);
        assert(batch_media(parsed.media_with_dirs@).len() == parsed.media_with_dirs@.len());
        if let Err(m) = check_media_collisions(&all) {
            return Err(CliError::MediaCollisionError(m));
        }
        Ok(PreviewResult { files_processed: docs.len(), deck_name: config.deck_name.clone(), cards: parsed.cards })
    }

    /// Checks that the documents parse: how many there are and how many hold cards.
    pub fn validate(&self, config: &ValidationConfig, docs: &Vec<SourceDocument>) -> (r: Result<ValidationResult, CliError>)
        ensures
            match batch_upto(docs@, docs@.len() as int) {
                Err(m) => r matches Err(CliError::ParseError(e)) && e@ == m,
                Ok(b) => r matches Ok(v) && v.total_files == docs@.len() && v.files_with_cards == b.source_files.len(),
            },
    {
        let parsed = match self.parse_documents(docs) {
            Ok(p) => p,
            Err(e) => {
                return Err(e);
            },
        };
        Ok(ValidationResult { total_files: docs.len(), files_with_cards: parsed.source_files.len() })
    }
}

/// The values of the media of a batch.
pub open spec fn batch_media(m: Seq<(String, Vec<MediaReference>)>) -> Seq<(Seq<char>, Seq<(Seq<char>, Seq<char>, Option<Seq<char>>)>)> {
    m.map_values(|x: (String, Vec<MediaReference>)| (x.0@, media_views(x.1@)))
}

/// The values of the warnings of a batch.
pub open spec fn batch_warnings(w: Seq<(String, Warning)>) -> Seq<(Seq<char>, (usize, Seq<char>))> {
    w.map_values(|x: (String, Warning)| (x.0@, x.1@))
}

/// A parse failure stays the batch's failure.
pub proof fn lemma_batch_err(docs: Seq<SourceDocument>, n: int, e: Seq<char>)
    requires
        0 <= n <= docs.len(),
        batch_upto(docs, n) == Err::<BatchView, Seq<char>>(e),
    ensures
        batch_upto(docs, docs.len() as int) == Err::<BatchView, Seq<char>>(e),
    decreases docs.len() - n,
{
    if n < docs.len() {
        lemma_batch_err(docs, n + 1, e);
    }
}

} // verus!
