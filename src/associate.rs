//! Pairing of rank glyphs with suit glyphs.

use vstd::prelude::*;
use crate::boxes::{BoundingBox, BoxView, views};

verus! {

/// The suit box and the card box share some vertical extent.
pub open spec fn vertical_overlap(suit: BoxView, card: BoxView) -> bool {
    suit.y1 <= card.y2 && suit.y2 >= card.y1
}

/// Horizontal gap between the card's right edge and the suit's left edge.
pub open spec fn gap(suit: BoxView, card: BoxView) -> int {
    if suit.x1 >= card.x2 { suit.x1 - card.x2 } else { card.x2 - suit.x1 }
}

/// Index of the vertically overlapping suit with the smallest gap to `card`,
/// the first of equals; `None` when no suit overlaps.
pub open spec fn best_suit(card: BoxView, suits: Seq<BoxView>) -> Option<int>
    decreases suits.len(),
{
    if suits.len() == 0 {
        None
    } else {
        let p = best_suit(card, suits.drop_last());
        let s = suits.last();
        if vertical_overlap(s, card) && (p is None || gap(s, card) < gap(suits[p.unwrap()], card)) {
            Some(suits.len() - 1)
        } else {
            p
        }
    }
}

/// `rank` and `suit` joined by one space.
pub open spec fn combined_label(rank: Seq<char>, suit: Seq<char>) -> Seq<char> {
    rank + seq![' '] + suit
}

/// The card box with its label completed by its nearest suit, if any.
pub open spec fn associated(card: BoxView, suits: Seq<BoxView>) -> BoxView {
    match best_suit(card, suits) {
        Some(i) => BoxView { label: combined_label(card.label, suits[i].label), ..card },
        None => card,
    }
}

/// Every card box of `cards`, associated with `suits`, in order.
pub open spec fn associate_all(cards: Seq<BoxView>, suits: Seq<BoxView>) -> Seq<BoxView> {
    cards.map_values(|c: BoxView| associated(c, suits))
}

proof fn lemma_best_suit_bounds(card: BoxView, suits: Seq<BoxView>)
    ensures
        best_suit(card, suits) matches Some(i) ==> 0 <= i < suits.len(),
    decreases suits.len(),
{
    if suits.len() > 0 {
        lemma_best_suit_bounds(card, suits.drop_last());
    }
}

fn gap_exec(suit: &BoundingBox, card: &BoundingBox) -> (r: i64)
    ensures
        r == gap(suit@, card@),
{
    if suit.x1 >= card.x2 {
        suit.x1 as i64 - card.x2 as i64
    } else {
        card.x2 as i64 - suit.x1 as i64
    }
}

/// Labels `card` with the suit found for it, if any.
pub fn associate_card(card: &BoundingBox, suits: &Vec<BoundingBox>) -> (r: BoundingBox)
    ensures
        r@ == associated(card@, views(suits@)),
{
    let ghost sv = views(suits@);
    let mut closest_suit: Option<usize> = None;
    let mut min_distance: i64 = 0;
    let mut i: usize = 0;
    while i < suits.len()
        invariant
            i <= suits@.len(),
            sv == views(suits@),
            closest_suit is None <==> best_suit(card@, sv.subrange(0, i as int)) is None,
            best_suit(card@, sv.subrange(0, i as int)) matches Some(k) ==> 0 <= k < i
                && closest_suit == Some(k as usize)
                && min_distance == gap(sv[k], card@),
        decreases suits@.len() - i,
    {
        let ghost pre = sv.subrange(0, i as int);
        assert(sv.subrange(0, i + 1).drop_last() =~= pre);
        proof {
            lemma_best_suit_bounds(card@, pre);
            if let Some(k) = best_suit(card@, pre) {
                assert(pre[k] == sv[k]);
            }
        }
        let suit = &suits[i];
        let horizontal_distance = gap_exec(suit, card);
        let vertical = suit.y1 <= card.y2 && suit.y2 >= card.y1;
        if vertical && (closest_suit.is_none() || horizontal_distance < min_distance) {
            min_distance = horizontal_distance;
            closest_suit = Some(i);
        }
        i = i + 1;
    }
    assert(sv.subrange(0, sv.len() as int) =~= sv);
    let mut result = card.duplicate();
    match closest_suit {
        Some(k) => {
            let mut label = card.label.clone();
            label.append(" ");
            label.append(suits[k].label.as_str());
            proof {
                reveal_strlit(" ");
            }
            assert(label@ =~= combined_label(card.label@, sv[k as int].label));
            result.label = label;
        },
        None => {},
    }
    result
}

/// Pairs every rank box with the vertically overlapping suit box nearest to
/// its right edge (the first of equals), joining the suit's label to its own
/// with a space; a rank box with no such suit keeps its label. A suit may
/// serve several rank boxes.
pub fn associate_cards_and_suits(cards: Vec<BoundingBox>, suits: Vec<BoundingBox>) -> (r: Vec<BoundingBox>)
    ensures
        views(r@) == associate_all(views(cards@), views(suits@)),
{
    let mut associated_cards: Vec<BoundingBox> = Vec::new();
    let mut i: usize = 0;
    while i < cards.len()
        invariant
            i <= cards@.len(),
            associated_cards@.len() == i,
            forall|j: int|
                0 <= j < i ==> (#[trigger] associated_cards@[j])@ == associated(cards@[j]@, views(suits@)),
        decreases cards@.len() - i,
    {
        associated_cards.push(associate_card(&cards[i], &suits));
        i = i + 1;
    }
    assert(views(associated_cards@) =~= associate_all(views(cards@), views(suits@)));
    associated_cards
}

} // verus!
