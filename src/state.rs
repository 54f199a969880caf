//! Assembly of the game state from the zones of the board.

use vstd::prelude::*;
use crate::boxes::{BoundingBox, BoxView, views};
use crate::associate::{associate_all, associate_cards_and_suits};
use crate::grouping::{
    floor_div, group_bounding_boxes_by_x_percentage, group_bounding_boxes_by_y_range,
    lemma_rows_partition, rows_of, rows_view, zone_members,
};

verus! {

/// Number of tableau piles.
pub const TABLEAU_PILES: usize = 7;

/// Number of discard slots.
pub const DISCARD_SLOTS: usize = 4;

/// Vertical pixel position at which the first card of a tableau pile is dealt.
pub const STARTING_Y: i32 = 75;

/// Height in pixels of one row of a pile.
pub const ROW_STEP: i32 = 40;

/// The mathematical value of a game state.
pub struct GameStateView {
    pub draw_pile: Seq<Seq<char>>,
    pub game_piles: Seq<Seq<Seq<char>>>,
    pub discard_pile: Seq<Seq<char>>,
}

/// The recognised layout: the draw pile, the seven tableau piles and the four
/// discard slots, as card labels; `"null"` stands for an unknown card.
pub struct GameState {
    pub draw_pile: Vec<String>,
    pub game_piles: Vec<Vec<String>>,
    pub discard_pile: Vec<String>,
}

/// The views of a sequence of strings.
pub open spec fn strings(s: Seq<String>) -> Seq<Seq<char>> {
    s.map_values(|x: String| x@)
}

impl View for GameState {
    type V = GameStateView;

    open spec fn view(&self) -> GameStateView {
        GameStateView {
            draw_pile: strings(self.draw_pile@),
            game_piles: self.game_piles@.map_values(|p: Vec<String>| strings(p@)),
            discard_pile: strings(self.discard_pile@),
        }
    }
}

/// The label that stands for an unknown card.
pub open spec fn sentinel() -> Seq<char> {
    seq!['n', 'u', 'l', 'l']
}

/// The labels of a sequence of boxes, in order.
pub open spec fn labels(s: Seq<BoxView>) -> Seq<Seq<char>> {
    s.map_values(|b: BoxView| b.label)
}

/// A discard-zone label: any label with a `J` in it is a known false match
/// there and reads as the sentinel.
pub open spec fn discard_label(l: Seq<char>) -> Seq<char> {
    if l.contains('J') { sentinel() } else { l }
}

/// Discard slot `k`: the first box of row `k` of the discard zone, or the
/// sentinel when the zone has fewer rows.
pub open spec fn discard_slot(rows: Seq<Seq<BoxView>>, k: int) -> Seq<char> {
    if k < rows.len() { discard_label(rows[k][0].label) } else { sentinel() }
}

/// Smallest top edge among the boxes of a non-empty sequence.
pub open spec fn min_y1(s: Seq<BoxView>) -> int
    decreases s.len(),
{
    if s.len() <= 1 {
        s[0].y1
    } else {
        let m = min_y1(s.drop_last());
        if s.last().y1 < m { s.last().y1 } else { m }
    }
}

/// Number of hidden cards above the topmost detected card of a pile.
pub open spec fn hidden_count(s: Seq<BoxView>, step: int) -> int {
    if s.len() == 0 {
        0
    } else {
        let d = min_y1(s) - STARTING_Y;
        if d < 0 { 0 } else { d / step }
    }
}

/// A tableau pile: one sentinel per hidden card, then the labels of the
/// pile's boxes in reading order.
pub open spec fn tableau_pile(s: Seq<BoxView>, step: int) -> Seq<Seq<char>> {
    Seq::new(hidden_count(s, step) as nat, |i: int| sentinel()) + labels(s)
}

/// The game state that the boxes of rank glyphs `cards` and suit glyphs
/// `suits` describe on an image of width `w`, with rows `step` pixels high.
pub open spec fn game_state_of(cards: Seq<BoxView>, suits: Seq<BoxView>, w: int, step: int) -> GameStateView {
    let a = associate_all(cards, suits);
    GameStateView {
        draw_pile: labels(zone_members(a, w, 0)),
        game_piles: Seq::new(TABLEAU_PILES as nat, |p: int| tableau_pile(zone_members(a, w, p + 1), step)),
        discard_pile: Seq::new(DISCARD_SLOTS as nat, |k: int| discard_slot(rows_of(zone_members(a, w, 8), step), k)),
    }
}

/// The sentinel label as a string.
pub fn sentinel_label() -> (r: String)
    ensures
        r@ == sentinel(),
{
    let r = String::from_str("null");
    proof {
        reveal_strlit("null");
    }
    assert(r@ =~= sentinel());
    r
}

/// Whether the label holds the character `J`.
pub fn has_jack(label: &String) -> (r: bool)
    ensures
        r == label@.contains('J'),
{
    let s = label.as_str();
    let n = s.unicode_len();
    let mut i: usize = 0;
    while i < n
        invariant
            s@ == label@,
            n == label@.len(),
            i <= n,
            forall|j: int| 0 <= j < i ==> label@[j] != 'J',
        decreases n - i,
    {
        if s.get_char(i) == 'J' {
            return true;
        }
        i = i + 1;
    }
    false
}

/// The labels of the boxes, in order.
fn label_list(s: &Vec<BoundingBox>) -> (r: Vec<String>)
    ensures
        strings(r@) == labels(views(s@)),
{
    let mut r: Vec<String> = Vec::new();
    let mut i: usize = 0;
    while i < s.len()
        invariant
            i <= s@.len(),
            r@.len() == i,
            forall|j: int| 0 <= j < i ==> (#[trigger] r@[j])@ == s@[j].label@,
        decreases s@.len() - i,
    {
        r.push(s[i].label.clone());
        i = i + 1;
    }
    assert(strings(r@) =~= labels(views(s@)));
    r
}

/// Smallest top edge among the boxes.
fn min_top(s: &Vec<BoundingBox>) -> (r: i32)
    requires
        s@.len() > 0,
    ensures
        r == min_y1(views(s@)),
{
    let ghost v = views(s@);
    let mut m: i32 = s[0].y1;
    let mut i: usize = 1;
    assert(v.subrange(0, 1).len() == 1);
    while i < s.len()
        invariant
            1 <= i <= s@.len(),
            v == views(s@),
            m == min_y1(v.subrange(0, i as int)),
        decreases s@.len() - i,
    {
        assert(v.subrange(0, i + 1).drop_last() =~= v.subrange(0, i as int));
        if s[i].y1 < m {
            m = s[i].y1;
        }
        i = i + 1;
    }
    assert(v.subrange(0, v.len() as int) =~= v);
    m
}

/// Builds a tableau pile from the boxes of its zone: one sentinel for each
/// row step between the deal position and the topmost box, then the labels.
pub fn build_tableau_pile(boxes: &Vec<BoundingBox>, y_range_step: i32) -> (r: Vec<String>)
    requires
        y_range_step > 0,
    ensures
        strings(r@) == tableau_pile(views(boxes@), y_range_step as int),
{
    let ghost v = views(boxes@);
    let ghost step = y_range_step as int;
    let mut hidden: i64 = 0;
    if boxes.len() > 0 {
        let d: i64 = min_top(boxes) as i64 - STARTING_Y as i64;
        if d >= 0 {
            hidden = floor_div(d, y_range_step as i64);
            assert(hidden <= d) by (nonlinear_arith)
                requires hidden as int == d as int / step, step > 0, d >= 0;
        }
    }
    assert(hidden == hidden_count(v, step));
    assert(0 <= hidden < 0x1_0000_0000) by (nonlinear_arith)
        requires hidden == hidden_count(v, step), step > 0,
            v.len() > 0 ==> min_y1(v) < 0x8000_0000;
    let mut pile: Vec<String> = Vec::new();
    let mut k: i64 = 0;
    while k < hidden
        invariant
            0 <= k <= hidden,
            pile@.len() == k,
            forall|j: int| 0 <= j < k ==> (#[trigger] pile@[j])@ == sentinel(),
        decreases hidden - k,
    {
        pile.push(sentinel_label());
        k = k + 1;
    }
    let ghost front = strings(pile@);
    assert(front =~= Seq::new(hidden_count(v, step) as nat, |i: int| sentinel()));
    let names = label_list(boxes);
    let mut i: usize = 0;
    while i < names.len()
        invariant
            i <= names@.len(),
            strings(pile@) == front + strings(names@).subrange(0, i as int),
        decreases names@.len() - i,
    {
        let ghost before = strings(pile@);
        pile.push(names[i].clone());
        assert(strings(pile@) =~= before.push(names@[i as int]@));
        assert(strings(names@).subrange(0, i + 1) =~= strings(names@).subrange(0, i as int).push(names@[i as int]@));
        i = i + 1;
    }
    assert(strings(names@).subrange(0, names@.len() as int) =~= strings(names@));
    pile
}

/// The discard slots from the rows of the discard zone: slot `k` holds the
/// first box of row `k`, unless its label has a `J`; missing rows leave the
/// sentinel.
pub fn build_discard_pile(rows: &Vec<Vec<BoundingBox>>) -> (r: Vec<String>)
    requires
        forall|i: int| 0 <= i < rows@.len() ==> (#[trigger] rows@[i])@.len() > 0,
    ensures
        r@.len() == DISCARD_SLOTS,
        strings(r@) == Seq::new(DISCARD_SLOTS as nat, |k: int| discard_slot(rows_view(rows@), k)),
{
    let ghost rv = rows_view(rows@);
    let mut discard_pile: Vec<String> = Vec::new();
    let mut k: usize = 0;
    while k < DISCARD_SLOTS
        invariant
            k <= DISCARD_SLOTS,
            rv == rows_view(rows@),
            forall|i: int| 0 <= i < rows@.len() ==> (#[trigger] rows@[i])@.len() > 0,
            discard_pile@.len() == k,
            forall|j: int| 0 <= j < k ==> (#[trigger] discard_pile@[j])@ == discard_slot(rv, j),
        decreases DISCARD_SLOTS - k,
    {
        if k < rows.len() {
            let first = &rows[k][0];
            assert(rv[k as int][0] == first@);
            if has_jack(&first.label) {
                discard_pile.push(sentinel_label());
            } else {
                discard_pile.push(first.label.clone());
            }
        } else {
            discard_pile.push(sentinel_label());
        }
        k = k + 1;
    }
    assert(strings(discard_pile@) =~= Seq::new(DISCARD_SLOTS as nat, |k: int| discard_slot(rv, k)));
    discard_pile
}

/// Reconstructs the game state from the rank boxes `cards` and suit boxes
/// `suits` of an image `image_width` pixels wide, with rows `y_range_step`
/// pixels high. The first zone is the draw pile, the next seven are the
/// tableau piles and the last holds the discard slots.
pub fn generate_game_state(
    cards: Vec<BoundingBox>,
    suits: Vec<BoundingBox>,
    image_width: i32,
    y_range_step: i32,
) -> (r: GameState)
    requires
        y_range_step > 0,
    ensures
        r@ == game_state_of(views(cards@), views(suits@), image_width as int, y_range_step as int),
        r.game_piles@.len() == TABLEAU_PILES,
        r.discard_pile@.len() == DISCARD_SLOTS,
{
    let ghost target = game_state_of(views(cards@), views(suits@), image_width as int, y_range_step as int);
    let associated_cards = associate_cards_and_suits(cards, suits);
    let ghost a = views(associated_cards@);
    let zones = group_bounding_boxes_by_x_percentage(associated_cards.as_slice(), image_width);
    assert(views(zones@[0]@) == zone_members(a, image_width as int, 0));
    // The draw pile and the tableau piles read their rows top to bottom and
    // left to right; rows concatenate back to the zone's boxes in order
    // (`lemma_rows_partition`), so those piles are read from the zone itself.
    let draw_pile = label_list(&zones[0]);
    let mut game_piles: Vec<Vec<String>> = Vec::new();
    let mut p: usize = 0;
    while p < TABLEAU_PILES
        invariant
            p <= TABLEAU_PILES,
            y_range_step > 0,
            zones@.len() == 9,
            a == views(associated_cards@),
            forall|i: int| 0 <= i < 9 ==> views((#[trigger] zones@[i])@) == zone_members(a, image_width as int, i),
            game_piles@.len() == p,
            forall|j: int|
                0 <= j < p ==> strings((#[trigger] game_piles@[j])@) == tableau_pile(
                    zone_members(a, image_width as int, j + 1),
                    y_range_step as int,
                ),
        decreases TABLEAU_PILES - p,
    {
        assert(views(zones@[p + 1]@) == zone_members(a, image_width as int, p + 1));
        game_piles.push(build_tableau_pile(&zones[p + 1], y_range_step));
        p = p + 1;
    }
    let discard_rows = group_bounding_boxes_by_y_range(zones[8].as_slice(), y_range_step);
    proof {
        let z8 = zone_members(a, image_width as int, 8);
        assert(views(zones@[8]@) == z8);
        lemma_rows_partition(z8, y_range_step as int);
        assert forall|i: int| 0 <= i < discard_rows@.len() implies (#[trigger] discard_rows@[i])@.len() > 0 by {
            assert(rows_view(discard_rows@)[i].len() > 0);
        }
    }
    let discard_pile = build_discard_pile(&discard_rows);
    let r = GameState { draw_pile, game_piles, discard_pile };
    assert(r@.game_piles =~= target.game_piles);
    assert(r@.discard_pile =~= target.discard_pile);
    r
}

} // verus!
