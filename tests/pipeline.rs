use solitaire_vision::associate::{associate_card, associate_cards_and_suits};
use solitaire_vision::boxes::{create_bounding_boxes, BoundingBox};
use solitaire_vision::grouping::{
    floor_div, group_bounding_boxes_by_x_percentage, group_bounding_boxes_by_y_range,
};
use solitaire_vision::pipeline::{is_suit_label, reconstruct, str_equals, template_label};
use solitaire_vision::state::{
    build_discard_pile, build_tableau_pile, generate_game_state, has_jack, sentinel_label,
};
use solitaire_vision::suppress::{is_suppressed, non_maximum_suppression};

fn bx(x1: i32, y1: i32, x2: i32, y2: i32, label: &str) -> BoundingBox {
    BoundingBox { x1, y1, x2, y2, label: label.to_string() }
}

fn coords(b: &BoundingBox) -> (i32, i32, i32, i32, String) {
    (b.x1, b.y1, b.x2, b.y2, b.label.clone())
}

fn all_coords(v: &[BoundingBox]) -> Vec<(i32, i32, i32, i32, String)> {
    v.iter().map(coords).collect()
}

fn strs(v: &[&str]) -> Vec<String> {
    v.iter().map(|s| s.to_string()).collect()
}

#[test]
fn zero_detections_give_empty_state() {
    let s = generate_game_state(vec![], vec![], 1000, 40);
    assert_eq!(s.draw_pile, Vec::<String>::new());
    assert_eq!(s.game_piles, vec![Vec::<String>::new(); 7]);
    assert_eq!(s.discard_pile, strs(&["null", "null", "null", "null"]));
}

#[test]
fn rank_and_suit_combine() {
    let r = associate_cards_and_suits(vec![bx(5, 5, 25, 35, "10")], vec![bx(30, 10, 50, 30, "hearts")]);
    assert_eq!(r.len(), 1);
    assert_eq!(coords(&r[0]), (5, 5, 25, 35, "10 hearts".to_string()));
}

#[test]
fn overlapping_ranks_keep_the_upper_one() {
    // the lower box has 90% of its area inside the upper one
    let upper = bx(0, 0, 10, 100, "K");
    let lower = bx(0, 10, 10, 110, "K");
    let r = non_maximum_suppression(vec![lower.clone(), upper.clone()], 1, 2);
    assert_eq!(all_coords(&r), vec![coords(&upper)]);
}

#[test]
fn jack_in_discard_zone_reads_as_sentinel() {
    let cards = vec![bx(850, 300, 870, 330, "J")];
    let suits = vec![bx(875, 300, 890, 330, "hearts")];
    let s = generate_game_state(cards, suits, 900, 40);
    assert_eq!(s.discard_pile, strs(&["null", "null", "null", "null"]));
    let low = generate_game_state(vec![bx(850, 700, 870, 730, "J")], vec![], 900, 40);
    assert_eq!(low.discard_pile, strs(&["null", "null", "null", "null"]));
}

#[test]
fn discard_rows_fill_slots_in_order() {
    let cards = vec![
        bx(850, 100, 870, 130, "A"),
        bx(850, 200, 870, 230, "Q"),
        bx(850, 300, 870, 330, "J"),
    ];
    let s = generate_game_state(cards, vec![], 900, 40);
    assert_eq!(s.discard_pile, strs(&["A", "Q", "null", "null"]));
}

#[test]
fn repeated_runs_are_identical() {
    let cards = vec![bx(5, 5, 25, 35, "10"), bx(6, 6, 26, 36, "10"), bx(300, 200, 320, 230, "7")];
    let suits = vec![bx(30, 10, 50, 30, "hearts"), bx(325, 205, 345, 225, "spades")];
    let (c1, s1, g1) = reconstruct(cards.clone(), suits.clone(), 900);
    let (c2, s2, g2) = reconstruct(cards, suits, 900);
    assert_eq!(all_coords(&c1), all_coords(&c2));
    assert_eq!(all_coords(&s1), all_coords(&s2));
    assert_eq!(g1.draw_pile, g2.draw_pile);
    assert_eq!(g1.game_piles, g2.game_piles);
    assert_eq!(g1.discard_pile, g2.discard_pile);
    assert_eq!(all_coords(&c1), vec![coords(&bx(5, 5, 25, 35, "10")), coords(&bx(300, 200, 320, 230, "7"))]);
    assert_eq!(g1.draw_pile, strs(&["10 hearts"]));
    assert_eq!(g1.game_piles[2], strs(&["null", "null", "null", "7 spades"]));
}

#[test]
fn kept_boxes_overlap_at_most_the_ratio() {
    let boxes = vec![
        bx(0, 0, 10, 10, "a"),
        bx(2, 2, 12, 12, "b"),
        bx(5, 0, 15, 10, "c"),
        bx(9, 9, 19, 19, "d"),
        bx(0, 20, 10, 30, "e"),
    ];
    let kept = non_maximum_suppression(boxes, 1, 2);
    for i in 0..kept.len() {
        for j in (i + 1)..kept.len() {
            assert!(!is_suppressed(&kept[i], &kept[j], 1, 2));
        }
    }
    let labels: Vec<String> = kept.iter().map(|b| b.label.clone()).collect();
    assert_eq!(labels, strs(&["c", "a", "d", "e"]));
}

#[test]
fn equal_bottoms_keep_the_last_inserted_first() {
    let r = non_maximum_suppression(vec![bx(0, 0, 10, 10, "first"), bx(1, 0, 11, 10, "second")], 1, 2);
    assert_eq!(all_coords(&r), vec![coords(&bx(1, 0, 11, 10, "second"))]);
}

#[test]
fn ratio_at_threshold_is_kept() {
    // exactly half of the second box lies inside the first
    let r = non_maximum_suppression(vec![bx(0, 0, 10, 10, "a"), bx(0, 5, 10, 15, "b")], 1, 2);
    assert_eq!(r.len(), 2);
    let r2 = non_maximum_suppression(vec![bx(0, 0, 10, 10, "a"), bx(0, 4, 10, 14, "b")], 1, 2);
    assert_eq!(all_coords(&r2), vec![coords(&bx(0, 0, 10, 10, "a"))]);
}

#[test]
fn empty_input_suppresses_to_empty() {
    assert!(non_maximum_suppression(vec![], 1, 2).is_empty());
}

#[test]
fn every_center_lands_in_one_zone() {
    let boxes = vec![
        bx(0, 0, 0, 1, "left-edge"),
        bx(99, 0, 101, 1, "boundary"),
        bx(98, 0, 99, 1, "before"),
        bx(899, 0, 901, 1, "right-edge"),
        bx(950, 0, 970, 1, "outside"),
    ];
    let zones = group_bounding_boxes_by_x_percentage(&boxes, 900);
    assert_eq!(zones.len(), 9);
    let labels: Vec<Vec<String>> = zones.iter().map(|z| z.iter().map(|b| b.label.clone()).collect()).collect();
    assert_eq!(labels[0], strs(&["left-edge", "before"]));
    assert_eq!(labels[1], strs(&["boundary"]));
    assert_eq!(labels[8], strs(&["right-edge"]));
    let total: usize = zones.iter().map(|z| z.len()).sum();
    assert_eq!(total, 4);
}

#[test]
fn regrouping_rows_is_stable() {
    let boxes = vec![
        bx(0, 0, 10, 10, "a"),
        bx(0, 20, 10, 30, "b"),
        bx(0, 45, 10, 55, "c"),
        bx(0, 90, 10, 100, "d"),
        bx(0, 0, 10, 10, "e"),
    ];
    let rows = group_bounding_boxes_by_y_range(&boxes, 40);
    let labels: Vec<Vec<String>> = rows.iter().map(|r| r.iter().map(|b| b.label.clone()).collect()).collect();
    assert_eq!(labels, vec![strs(&["a", "b"]), strs(&["c"]), strs(&["d"]), strs(&["e"])]);
    let flat: Vec<BoundingBox> = rows.iter().flatten().cloned().collect();
    let again = group_bounding_boxes_by_y_range(&flat, 40);
    let labels2: Vec<Vec<String>> = again.iter().map(|r| r.iter().map(|b| b.label.clone()).collect()).collect();
    assert_eq!(labels, labels2);
}

#[test]
fn rows_with_negative_centers() {
    let boxes = vec![bx(0, -30, 10, -20, "a"), bx(0, -15, 10, -5, "b"), bx(0, 5, 10, 15, "c")];
    let rows = group_bounding_boxes_by_y_range(&boxes, 40);
    assert_eq!(rows.len(), 2);
    assert_eq!(rows[0].len(), 2);
}

#[test]
fn pile_counts_stay_fixed() {
    let mut cards = Vec::new();
    for i in 0..60 {
        cards.push(bx(i * 15, 100 + (i % 7) * 40, i * 15 + 10, 130 + (i % 7) * 40, "5"));
    }
    let s = generate_game_state(cards, vec![], 900, 40);
    assert_eq!(s.game_piles.len(), 7);
    assert_eq!(s.discard_pile.len(), 4);
}

#[test]
fn tableau_counts_hidden_cards() {
    let pile = build_tableau_pile(&vec![bx(200, 200, 220, 230, "9"), bx(200, 240, 220, 270, "8")], 40);
    assert_eq!(pile, strs(&["null", "null", "null", "9", "8"]));
    let top = build_tableau_pile(&vec![bx(200, 10, 220, 40, "K")], 40);
    assert_eq!(top, strs(&["K"]));
    assert!(build_tableau_pile(&vec![], 40).is_empty());
}

#[test]
fn tableau_zones_map_to_piles() {
    let cards = vec![bx(150, 75, 170, 105, "A"), bx(750, 115, 770, 145, "2")];
    let s = generate_game_state(cards, vec![], 900, 40);
    assert_eq!(s.game_piles[0], strs(&["A"]));
    assert_eq!(s.game_piles[6], strs(&["null", "2"]));
    assert!(s.draw_pile.is_empty());
}

#[test]
fn discard_pile_from_rows() {
    let rows = vec![vec![bx(0, 0, 1, 1, "3 clubs"), bx(0, 0, 1, 1, "x")], vec![bx(0, 0, 1, 1, "J spades")]];
    assert_eq!(build_discard_pile(&rows), strs(&["3 clubs", "null", "null", "null"]));
}

#[test]
fn nearest_suit_wins_and_ties_go_to_the_first() {
    let card = bx(0, 0, 20, 30, "Q");
    let suits = vec![
        bx(40, 0, 50, 10, "clubs"),
        bx(25, 0, 35, 10, "hearts"),
        bx(15, 0, 25, 10, "spades"),
        bx(22, 100, 30, 110, "diamonds"),
    ];
    assert_eq!(associate_card(&card, &suits).label, "Q hearts");
    let none = associate_card(&card, &vec![bx(22, 100, 30, 110, "diamonds")]);
    assert_eq!(none.label, "Q");
}

#[test]
fn a_suit_may_serve_several_ranks() {
    let r = associate_cards_and_suits(
        vec![bx(0, 0, 20, 30, "4"), bx(0, 10, 20, 40, "5")],
        vec![bx(25, 5, 35, 35, "diamonds")],
    );
    assert_eq!(r[0].label, "4 diamonds");
    assert_eq!(r[1].label, "5 diamonds");
}

#[test]
fn boxes_from_matches() {
    let r = create_bounding_boxes(vec![(3, 4), (10, 0)], 5, 7, "spades".to_string());
    assert_eq!(all_coords(&r), vec![(3, 4, 8, 11, "spades".to_string()), (10, 0, 15, 7, "spades".to_string())]);
}

#[test]
fn suit_labels() {
    for s in ["hearts", "diamonds", "clubs", "spades"] {
        assert!(is_suit_label(s));
    }
    for s in ["10", "J", "heart", "Hearts", ""] {
        assert!(!is_suit_label(s));
    }
    assert!(str_equals("abc", "abc"));
    assert!(!str_equals("abc", "abd"));
}

#[test]
fn floor_division() {
    assert_eq!(floor_div(7, 2), 3);
    assert_eq!(floor_div(-7, 2), -4);
    assert_eq!(floor_div(-8, 2), -4);
    assert_eq!(floor_div(0, 40), 0);
    assert_eq!(floor_div(-1, 40), -1);
}

#[test]
fn jack_detection() {
    assert!(has_jack(&"J hearts".to_string()));
    assert!(!has_jack(&"10 hearts".to_string()));
    assert_eq!(sentinel_label(), "null");
}

#[test]
fn labels_from_template_paths() {
    assert_eq!(template_label("templates\\hearts.png"), "hearts");
    assert_eq!(template_label("templates/10.png"), "10");
    assert_eq!(template_label("a/b\\J.png"), "J");
    assert_eq!(template_label("spades"), "spades");
    assert_eq!(template_label("dir/.hidden"), ".hidden");
    assert_eq!(template_label("dir/archive.tar.png"), "archive.tar");
    assert_eq!(template_label(""), "");
}
