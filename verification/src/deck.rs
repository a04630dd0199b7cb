//! The in-memory Deck the rest of the app iterates.
//!
//! The Deck exposes the geometry asset's Entities as Cards in the fixed
//! big→obscure introduction order: `LABELRANK` ascending, tiebreak `POP_EST`
//! descending, and Cards that tie on both keep alphabetical-by-code order, so
//! the sequence is fully determined by the asset. New Cards always enter in
//! this order and every screen shares it. Membership and order are derived
//! from the asset alone; nothing here is persisted.
use crate::text::{lemma_str_lt_order, str_before, str_eq, str_lt};
use vstd::hash_map::StringHashMap;
use vstd::prelude::*;
use vstd::seq_lib::group_to_multiset_ensures;

verus! {

/// One map feature's static data. Projected coordinates are stored in
/// hundredths of a degree (the asset's precision), as integers.
#[derive(Debug, Clone, PartialEq)]
pub struct Entity {
    /// Curated common name — the reveal's primary line.
    pub name: String,
    /// Formal `NAME_LONG` — the reveal's secondary line.
    pub name_long: String,
    /// SVG path in projected coordinates, rendered by the map.
    pub d: String,
    /// Mainland `[minx, miny, maxx, maxy]`, centidegrees; drives framing.
    pub bbox: [i32; 4],
    /// Label-prominence signal, lower = more prominent — primary sort key.
    pub labelrank: u32,
    /// Population estimate — sort tiebreak.
    pub pop_est: u64,
    /// `[x, y]`, centidegrees; the reveal drops its pin here.
    pub centroid: [i32; 2],
}

/// An Entity paired with its `ADM0_A3` code — the unit the Deck orders and the
/// scheduler tracks.
#[derive(Debug, Clone, PartialEq)]
pub struct Card {
    /// `ADM0_A3` code — the key the store and the geometry asset share.
    pub code: String,
    pub entity: Entity,
}

/// Introduction order: `a` enters strictly before `b`.
pub open spec fn intro_lt(a: Card, b: Card) -> bool {
    ||| a.entity.labelrank < b.entity.labelrank
    ||| (a.entity.labelrank == b.entity.labelrank && a.entity.pop_est > b.entity.pop_est)
    ||| (a.entity.labelrank == b.entity.labelrank && a.entity.pop_est == b.entity.pop_est
        && str_lt(a.code@, b.code@))
}

/// No two Cards share a code.
pub open spec fn codes_distinct(s: Seq<Card>) -> bool {
    forall|i: int, j: int| 0 <= i < j < s.len() ==> #[trigger] s[i].code@ != #[trigger] s[j].code@
}

/// Cards in strictly increasing introduction order.
pub open spec fn intro_sorted(s: Seq<Card>) -> bool {
    forall|i: int, j: int| 0 <= i < j < s.len() ==> intro_lt(#[trigger] s[i], #[trigger] s[j])
}

/// Whether some Card in `s` has code `code`.
pub open spec fn has_code(s: Seq<Card>, code: Seq<char>) -> bool {
    exists|i: int| 0 <= i < s.len() && #[trigger] s[i].code@ == code
}

/// The Card a `(code, entity)` pair of the asset denotes.
pub open spec fn as_card(e: (String, Entity)) -> Card {
    Card { code: e.0, entity: e.1 }
}

/// The Cards a list of `(code, entity)` pairs denotes.
pub open spec fn as_cards(s: Seq<(String, Entity)>) -> Seq<Card> {
    s.map_values(|e: (String, Entity)| as_card(e))
}

/// Introduction order is a strict total order on Cards with distinct codes.
pub proof fn lemma_intro_order(a: Card, b: Card, c: Card)
    ensures
        !intro_lt(a, a),
        intro_lt(a, b) ==> !intro_lt(b, a),
        intro_lt(a, b) && intro_lt(b, c) ==> intro_lt(a, c),
        a.code@ != b.code@ ==> intro_lt(a, b) || intro_lt(b, a),
{
    lemma_str_lt_order(a.code@, b.code@, c.code@);
}

/// Cards ordered big to obscure, read off their fields: a smaller
/// `LABELRANK` comes first; on equal `LABELRANK`, the larger `POP_EST` comes
/// first; on equal both, the code that sorts first comes first.
pub open spec fn big_to_obscure(s: Seq<Card>) -> bool {
    forall|i: int, j: int|
        0 <= i < s.len() && 0 <= j < s.len() ==> {
            &&& (#[trigger] s[i]).entity.labelrank < (#[trigger] s[j]).entity.labelrank ==> i < j
            &&& s[i].entity.labelrank == s[j].entity.labelrank && s[i].entity.pop_est
                > s[j].entity.pop_est ==> i < j
            &&& s[i].entity.labelrank == s[j].entity.labelrank && s[i].entity.pop_est
                == s[j].entity.pop_est && str_lt(s[i].code@, s[j].code@) ==> i < j
        }
}

/// Cards in introduction order are ordered big to obscure by their fields.
pub proof fn lemma_intro_sorted_big_to_obscure(s: Seq<Card>)
    requires
        intro_sorted(s),
    ensures
        big_to_obscure(s),
{
    assert forall|i: int, j: int| 0 <= i < s.len() && 0 <= j < s.len() implies {
        &&& (#[trigger] s[i]).entity.labelrank < (#[trigger] s[j]).entity.labelrank ==> i < j
        &&& s[i].entity.labelrank == s[j].entity.labelrank && s[i].entity.pop_est
            > s[j].entity.pop_est ==> i < j
        &&& s[i].entity.labelrank == s[j].entity.labelrank && s[i].entity.pop_est
            == s[j].entity.pop_est && str_lt(s[i].code@, s[j].code@) ==> i < j
    } by {
        lemma_str_lt_order(s[i].code@, s[j].code@, s[i].code@);
        if j < i {
            assert(intro_lt(s[j], s[i]));
        }
    }
}

/// Whether `a` enters strictly before `b`.
fn intro_before(a: &Card, b: &Card) -> (r: bool)
    ensures
        r == intro_lt(*a, *b),
{
    if a.entity.labelrank != b.entity.labelrank {
        a.entity.labelrank < b.entity.labelrank
    } else if a.entity.pop_est != b.entity.pop_est {
        a.entity.pop_est > b.entity.pop_est
    } else {
        str_before(a.code.as_str(), b.code.as_str())
    }
}

/// The full set of Cards in fixed introduction order, indexed by code.
pub struct Deck {
    cards: Vec<Card>,
    /// Each Card's position in `cards`, keyed by its code.
    index: StringHashMap<usize>,
}

impl View for Deck {
    type V = Seq<Card>;

    closed spec fn view(&self) -> Seq<Card> {
        self.cards@
    }
}

impl Deck {
    #[verifier::type_invariant]
    pub open spec fn wf(self) -> bool {
        &&& codes_distinct(self@)
        &&& intro_sorted(self@)
        &&& self.index_matches()
    }

    /// The index holds exactly the Deck's codes, each at its Card's position.
    pub closed spec fn index_matches(self) -> bool {
        index_of(self.index@, self.cards@, self.cards@.len() as int)
    }

    /// Order the asset's `(code, entity)` pairs into the Deck. The result holds
    /// exactly the given Cards, in introduction order: `LABELRANK` ascending,
    /// then `POP_EST` descending, then code.
    pub fn build(entities: Vec<(String, Entity)>) -> (deck: Deck)
        requires
            codes_distinct(as_cards(entities@)),
        ensures
            deck@.to_multiset() == as_cards(entities@).to_multiset(),
            deck@.len() == entities@.len(),
            intro_sorted(deck@),
            big_to_obscure(deck@),
            codes_distinct(deck@),
    {
        broadcast use group_to_multiset_ensures;

        let ghost input = as_cards(entities@);
        let ghost n = input.len();
        let mut rest = entities;
        let mut cards: Vec<Card> = Vec::new();
        assert(as_cards(rest@) == input);
        assert(input.subrange(n as int, n as int) =~= Seq::<Card>::empty());
        while rest.len() > 0
            invariant
                n == input.len(),
                codes_distinct(input),
                as_cards(rest@) == input.subrange(0, rest@.len() as int),
                rest@.len() <= n,
                cards@.to_multiset() == input.subrange(rest@.len() as int, n as int).to_multiset(),
                cards@.len() == n - rest@.len(),
                forall|i: int|
                    0 <= i < cards@.len() ==> exists|k: int|
                        rest@.len() <= k < n && #[trigger] cards@[i] == #[trigger] input[k],
                intro_sorted(cards@),
                codes_distinct(cards@),
            decreases rest@.len(),
        {
            let ghost r = rest@.len() as int;
            let ghost old_rest = rest@;
            let e = rest.pop().unwrap();
            let card = Card { code: e.0, entity: e.1 };
            assert(e == old_rest[r - 1]);
            assert(as_cards(old_rest)[r - 1] == input.subrange(0, r)[r - 1]);
            assert(card == input[r - 1]);
            assert(as_cards(rest@) =~= input.subrange(0, r - 1));
            // Every placed Card came from a later input position, so its code differs.
            assert forall|i: int| 0 <= i < cards@.len() implies cards@[i].code@ != card.code@ by {
                let k = choose|k: int| r <= k < n && cards@[i] == input[k];
                assert(input[r - 1].code@ != input[k].code@);
            }
            let mut pos: usize = 0;
            while pos < cards.len() && intro_before(&cards[pos], &card)
                invariant
                    pos <= cards@.len(),
                    forall|i: int| 0 <= i < pos ==> intro_lt(#[trigger] cards@[i], card),
                decreases cards@.len() - pos,
            {
                pos = pos + 1;
            }
            let ghost before = cards@;
            proof {
                if pos < before.len() {
                    lemma_intro_order(before[pos as int], card, card);
                    assert(before[pos as int].code@ != card.code@);
                    assert(intro_lt(card, before[pos as int]));
                }
            }
            cards.insert(pos, card);
            proof {
                let s = cards@;
                assert(s =~= before.insert(pos as int, card));
                assert forall|a: int, b: int| 0 <= a < b < s.len() implies intro_lt(
                    #[trigger] s[a],
                    #[trigger] s[b],
                ) by {
                    if a < pos && b == pos {
                    } else if a < pos && b > pos {
                        lemma_intro_order(s[a], card, s[b]);
                        if b - 1 > pos {
                            lemma_intro_order(card, before[pos as int], s[b]);
                        }
                    } else if a == pos && b > pos {
                        if b - 1 > pos {
                            lemma_intro_order(card, before[pos as int], s[b]);
                        }
                    } else if a > pos {
                        assert(s[a] == before[a - 1] && s[b] == before[b - 1]);
                    } else {
                        assert(s[a] == before[a] && s[b] == before[b]);
                    }
                }
                assert forall|a: int, b: int| 0 <= a < b < s.len() implies #[trigger] s[a].code@
                    != #[trigger] s[b].code@ by {
                    if a == pos {
                        assert(s[b] == before[b - 1]);
                    } else if b == pos {
                        assert(s[a] == before[a]);
                    } else if a < pos && b > pos {
                        assert(s[a] == before[a] && s[b] == before[b - 1]);
                    } else if a > pos {
                        assert(s[a] == before[a - 1] && s[b] == before[b - 1]);
                    } else {
                        assert(s[a] == before[a] && s[b] == before[b]);
                    }
                }
                assert forall|i: int| 0 <= i < s.len() implies exists|k: int|
                    r - 1 <= k < n && #[trigger] s[i] == #[trigger] input[k] by {
                    if i < pos {
                        assert(s[i] == before[i]);
                        let k = choose|k: int| r <= k < n && before[i] == input[k];
                        assert(s[i] == input[k]);
                    } else if i > pos {
                        assert(s[i] == before[i - 1]);
                        let k = choose|k: int| r <= k < n && before[i - 1] == input[k];
                        assert(s[i] == input[k]);
                    } else {
                        assert(s[i] == input[r - 1]);
                    }
                }
                // Multiset bookkeeping: inserting `card` adds it once.
                assert(s.remove(pos as int) =~= before);
                assert(s[pos as int] == card);
                s.to_multiset_ensures();
                assert(s.remove(pos as int).to_multiset() == s.to_multiset().remove(s[pos as int]));
                assert(s.to_multiset().remove(card) == before.to_multiset());
                assert(s.contains(card));
                assert(s.to_multiset().count(card) > 0);
                assert(s.to_multiset() =~= before.to_multiset().insert(card));
                let tail = input.subrange(r, n as int);
                let longer = input.subrange(r - 1, n as int);
                assert(longer.remove(0) =~= tail);
                assert(longer[0] == card);
                longer.to_multiset_ensures();
                assert(longer.remove(0).to_multiset() == longer.to_multiset().remove(longer[0]));
                assert(longer.to_multiset().remove(card) == tail.to_multiset());
                assert(longer.contains(card));
                assert(longer.to_multiset().count(card) > 0);
                assert(longer.to_multiset() =~= tail.to_multiset().insert(card));
            }
        }
        assert(input.subrange(0, n as int) =~= input);
        proof {
            lemma_intro_sorted_big_to_obscure(cards@);
        }
        let index = index_codes(&cards);
        Deck { cards, index }
    }

    /// Every Deck is ordered big to obscure by its Cards' fields.
    pub proof fn lemma_big_to_obscure(self)
        requires
            self.wf(),
        ensures
            big_to_obscure(self@),
    {
        lemma_intro_sorted_big_to_obscure(self@);
    }

    /// Number of Cards in the Deck.
    pub fn len(&self) -> (n: usize)
        ensures
            n == self@.len(),
    {
        self.cards.len()
    }

    /// Whether the Deck is empty (never true for the shipped asset).
    pub fn is_empty(&self) -> (b: bool)
        ensures
            b == (self@.len() == 0),
    {
        self.cards.len() == 0
    }

    /// The Cards in fixed introduction order.
    pub fn cards(&self) -> (c: &[Card])
        ensures
            c@ == self@,
    {
        self.cards.as_slice()
    }

    /// The Card for `code`, or `None` if the code is not in the Deck. Every
    /// member's code resolves to that member's own position.
    pub fn get(&self, code: &str) -> (r: Option<&Card>)
        ensures
            r is None <==> !has_code(self@, code@),
            forall|i: int| 0 <= i < self@.len() && self@[i].code@ == code@ ==> r == Some(&self@[i]),
    {
        proof {
            use_type_invariant(self);
        }
        match self.index.get(code) {
            Some(i) => {
                let i = *i;
                proof {
                    assert forall|j: int| 0 <= j < self@.len() && self@[j].code@ == code@ implies j
                        == i by {
                        if j != i {
                            assert(self@[i as int].code@ == code@);
                        }
                    }
                }
                Some(&self.cards[i])
            },
            None => None,
        }
    }

    /// Whether `code` is a Deck member.
    pub fn contains(&self, code: &str) -> (b: bool)
        ensures
            b == has_code(self@, code@),
    {
        proof {
            use_type_invariant(self);
        }
        self.index.contains_key(code)
    }
}

/// `index` maps exactly the codes of the first `n` Cards of `cards`, each to
/// its Card's position.
pub open spec fn index_of(index: Map<Seq<char>, usize>, cards: Seq<Card>, n: int) -> bool {
    &&& forall|k: Seq<char>|
        #[trigger] index.contains_key(k) <==> exists|j: int|
            0 <= j < n && #[trigger] cards[j].code@ == k
    &&& forall|k: Seq<char>|
        #[trigger] index.contains_key(k) ==> index[k] < n && cards[index[k] as int].code@ == k
}

/// Index Cards with distinct codes by code.
fn index_codes(cards: &Vec<Card>) -> (index: StringHashMap<usize>)
    requires
        codes_distinct(cards@),
    ensures
        index_of(index@, cards@, cards@.len() as int),
{
    let mut index: StringHashMap<usize> = StringHashMap::new();
    let mut i: usize = 0;
    while i < cards.len()
        invariant
            i <= cards@.len(),
            codes_distinct(cards@),
            index_of(index@, cards@, i as int),
        decreases cards@.len() - i,
    {
        let code = cards[i].code.clone();
        let ghost before = index@;
        index.insert(code, i);
        proof {
            assert(index@ == before.insert(cards@[i as int].code@, i));
            assert forall|k: Seq<char>| #[trigger] index@.contains_key(k) <==> exists|j: int|
                0 <= j < i + 1 && #[trigger] cards@[j].code@ == k by {
                if k == cards@[i as int].code@ {
                    assert(cards@[i as int].code@ == k);
                } else if index@.contains_key(k) {
                    assert(before.contains_key(k));
                } else if exists|j: int| 0 <= j < i + 1 && #[trigger] cards@[j].code@ == k {
                    let j = choose|j: int| 0 <= j < i + 1 && #[trigger] cards@[j].code@ == k;
                    assert(j < i);
                }
            }
        }
        i = i + 1;
    }
    index
}

} // verus!
