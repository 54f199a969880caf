//! Template classification and the reconstruction from raw detections.

use vstd::prelude::*;
use crate::boxes::{BoundingBox, BoxView, views, copy_boxes};
use crate::suppress::{non_maximum_suppression, suppress_of};
use crate::state::{GameState, GameStateView, game_state_of, generate_game_state, ROW_STEP};

verus! {

/// Overlap ratio above which a box is suppressed: `OVERLAP_NUM / OVERLAP_DEN`.
pub const OVERLAP_NUM: u32 = 1;

/// Denominator of the suppression ratio.
pub const OVERLAP_DEN: u32 = 2;

/// The label names one of the four suits.
pub open spec fn is_suit(label: Seq<char>) -> bool {
    label == seq!['h', 'e', 'a', 'r', 't', 's']
        || label == seq!['d', 'i', 'a', 'm', 'o', 'n', 'd', 's']
        || label == seq!['c', 'l', 'u', 'b', 's']
        || label == seq!['s', 'p', 'a', 'd', 'e', 's']
}

/// Character-wise equality of two strings.
pub fn str_equals(a: &str, b: &str) -> (r: bool)
    ensures
        r == (a@ == b@),
{
    let n = a.unicode_len();
    if n != b.unicode_len() {
        return false;
    }
    let mut i: usize = 0;
    while i < n
        invariant
            n == a@.len(),
            n == b@.len(),
            i <= n,
            forall|j: int| 0 <= j < i ==> a@[j] == b@[j],
        decreases n - i,
    {
        if a.get_char(i) != b.get_char(i) {
            return false;
        }
        i = i + 1;
    }
    assert(a@ =~= b@);
    true
}

/// Whether a template label names a suit; suit templates are matched at a
/// stricter threshold than rank templates.
pub fn is_suit_label(label: &str) -> (r: bool)
    ensures
        r == is_suit(label@),
{
    proof {
        reveal_strlit("hearts");
        reveal_strlit("diamonds");
        reveal_strlit("clubs");
        reveal_strlit("spades");
    }
    let h = str_equals(label, "hearts");
    let d = str_equals(label, "diamonds");
    let c = str_equals(label, "clubs");
    let s = str_equals(label, "spades");
    assert("hearts"@ =~= seq!['h', 'e', 'a', 'r', 't', 's']);
    assert("diamonds"@ =~= seq!['d', 'i', 'a', 'm', 'o', 'n', 'd', 's']);
    assert("clubs"@ =~= seq!['c', 'l', 'u', 'b', 's']);
    assert("spades"@ =~= seq!['s', 'p', 'a', 'd', 'e', 's']);
    h || d || c || s
}

/// A path separator.
pub open spec fn is_sep(c: char) -> bool {
    c == '/' || c == '\\'
}

/// Index at which the last component of the path `s` begins.
pub open spec fn base_start(s: Seq<char>) -> int
    decreases s.len(),
{
    if s.len() == 0 {
        0
    } else if is_sep(s.last()) {
        s.len() as int
    } else {
        base_start(s.drop_last())
    }
}

/// Index of the last `.` in `b`, or `-1` when there is none.
pub open spec fn last_dot(b: Seq<char>) -> int
    decreases b.len(),
{
    if b.len() == 0 {
        -1
    } else if b.last() == '.' {
        b.len() - 1
    } else {
        last_dot(b.drop_last())
    }
}

/// The file name of a path without its extension: the last component, cut
/// before its last `.` unless that `.` opens the name.
pub open spec fn file_stem(s: Seq<char>) -> Seq<char> {
    let b = s.subrange(base_start(s), s.len() as int);
    let d = last_dot(b);
    if d > 0 { b.subrange(0, d) } else { b }
}

/// The label of a template file: its file name without the extension.
pub fn template_label(path: &str) -> (r: String)
    ensures
        r@ == file_stem(path@),
{
    let ghost s = path@;
    let n = path.unicode_len();
    let mut start: usize = 0;
    let mut i: usize = 0;
    while i < n
        invariant
            n == s.len(),
            s == path@,
            i <= n,
            start <= i,
            start == base_start(s.subrange(0, i as int)),
        decreases n - i,
    {
        assert(s.subrange(0, i + 1).drop_last() =~= s.subrange(0, i as int));
        let c = path.get_char(i);
        if c == '/' || c == '\\' {
            start = i + 1;
        }
        i = i + 1;
    }
    assert(s.subrange(0, n as int) =~= s);
    let ghost b = s.subrange(start as int, n as int);
    let mut dot: usize = 0;
    let mut found = false;
    let mut j: usize = start;
    while j < n
        invariant
            n == s.len(),
            s == path@,
            start <= j <= n,
            b == s.subrange(start as int, n as int),
            found ==> dot < j - start && dot as int == last_dot(s.subrange(start as int, j as int)),
            !found ==> last_dot(s.subrange(start as int, j as int)) == -1,
        decreases n - j,
    {
        assert(s.subrange(start as int, j + 1).drop_last() =~= s.subrange(start as int, j as int));
        if path.get_char(j) == '.' {
            dot = j - start;
            found = true;
        }
        j = j + 1;
    }
    let end: usize = if found && dot > 0 { start + dot } else { n };
    let stem = path.substring_char(start, end);
    let r = String::from_str(stem);
    assert(r@ =~= file_stem(s));
    r
}

/// The kept rank boxes, the kept suit boxes and the game state that the raw
/// detections describe on an image of width `w`.
pub open spec fn reconstruction_of(cards: Seq<BoxView>, suits: Seq<BoxView>, w: int) -> (
    Seq<BoxView>,
    Seq<BoxView>,
    GameStateView,
) {
    let kept_cards = suppress_of(cards, OVERLAP_NUM as int, OVERLAP_DEN as int);
    let kept_suits = suppress_of(suits, OVERLAP_NUM as int, OVERLAP_DEN as int);
    (kept_cards, kept_suits, game_state_of(kept_cards, kept_suits, w, ROW_STEP as int))
}

/// Suppresses overlapping rank and suit detections, each set on its own, and
/// assembles the game state from what is kept. Returns the kept rank boxes,
/// the kept suit boxes and the game state.
pub fn reconstruct(card_boxes: Vec<BoundingBox>, suit_boxes: Vec<BoundingBox>, image_width: i32) -> (r: (
    Vec<BoundingBox>,
    Vec<BoundingBox>,
    GameState,
))
    ensures
        (views(r.0@), views(r.1@), r.2@) == reconstruction_of(views(card_boxes@), views(suit_boxes@), image_width as int),
{
    let filtered_cards = non_maximum_suppression(card_boxes, OVERLAP_NUM, OVERLAP_DEN);
    let filtered_suits = non_maximum_suppression(suit_boxes, OVERLAP_NUM, OVERLAP_DEN);
    let cards = copy_boxes(filtered_cards.as_slice());
    let suits = copy_boxes(filtered_suits.as_slice());
    let game_state = generate_game_state(cards, suits, image_width, ROW_STEP);
    (filtered_cards, filtered_suits, game_state)
}

/// The reconstruction depends on the detections and the image width alone:
/// equal inputs give equal kept boxes and an equal game state.
pub proof fn lemma_reconstruction_deterministic(
    cards1: Seq<BoxView>,
    suits1: Seq<BoxView>,
    cards2: Seq<BoxView>,
    suits2: Seq<BoxView>,
    w: int,
)
    requires
        cards1 == cards2,
        suits1 == suits2,
    ensures
        reconstruction_of(cards1, suits1, w) == reconstruction_of(cards2, suits2, w),
{
}

} // verus!
