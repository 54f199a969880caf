//! Axis-aligned bounding boxes and the box builder.

use vstd::prelude::*;

verus! {

/// The mathematical value of a bounding box.
pub struct BoxView {
    pub x1: int,
    pub y1: int,
    pub x2: int,
    pub y2: int,
    pub label: Seq<char>,
}

/// One detected symbol instance: pixel coordinates and a label.
#[derive(Debug, Clone)]
pub struct BoundingBox {
    pub x1: i32,
    pub y1: i32,
    pub x2: i32,
    pub y2: i32,
    pub label: String,
}

impl View for BoundingBox {
    type V = BoxView;

    open spec fn view(&self) -> BoxView {
        BoxView {
            x1: self.x1 as int,
            y1: self.y1 as int,
            x2: self.x2 as int,
            y2: self.y2 as int,
            label: self.label@,
        }
    }
}

impl BoxView {
    /// A box is well formed when it has positive width and height.
    pub open spec fn wf(self) -> bool {
        self.x1 < self.x2 && self.y1 < self.y2
    }

    pub open spec fn area(self) -> int {
        (self.x2 - self.x1) * (self.y2 - self.y1)
    }
}

/// The views of a sequence of boxes.
pub open spec fn views(s: Seq<BoundingBox>) -> Seq<BoxView> {
    s.map_values(|b: BoundingBox| b@)
}

/// Every box of the sequence is well formed.
pub open spec fn all_wf(s: Seq<BoxView>) -> bool {
    forall|i: int| 0 <= i < s.len() ==> (#[trigger] s[i]).wf()
}

/// The box that a template of size `w` x `h` covers when it matches at `(x, y)`.
pub open spec fn box_at(x: int, y: int, w: int, h: int, label: Seq<char>) -> BoxView {
    BoxView { x1: x, y1: y, x2: x + w, y2: y + h, label }
}

impl BoundingBox {
    /// A copy of the box with the same coordinates and label.
    pub fn duplicate(&self) -> (r: BoundingBox)
        ensures
            r@ == self@,
    {
        BoundingBox {
            x1: self.x1,
            y1: self.y1,
            x2: self.x2,
            y2: self.y2,
            label: self.label.clone(),
        }
    }
}

/// Copies a slice of boxes into a vector, keeping order.
pub fn copy_boxes(s: &[BoundingBox]) -> (r: Vec<BoundingBox>)
    ensures
        views(r@) == views(s@),
{
    let mut r: Vec<BoundingBox> = Vec::new();
    let mut i: usize = 0;
    while i < s.len()
        invariant
            i <= s@.len(),
            r@.len() == i,
            forall|j: int| 0 <= j < i ==> (#[trigger] r@[j])@ == s@[j]@,
        decreases s@.len() - i,
    {
        r.push(s[i].duplicate());
        i = i + 1;
    }
    assert(views(r@) =~= views(s@));
    r
}

/// Builds one box per match position `(x, y)`, each covering the template's
/// `template_width` x `template_height` area and carrying `label`.
pub fn create_bounding_boxes(
    matches: Vec<(i32, i32)>,
    template_width: i32,
    template_height: i32,
    label: String,
) -> (r: Vec<BoundingBox>)
    requires
        template_width > 0,
        template_height > 0,
        forall|i: int|
            0 <= i < matches@.len() ==> (#[trigger] matches@[i]).0 + template_width <= i32::MAX
                && matches@[i].1 + template_height <= i32::MAX,
    ensures
        r@.len() == matches@.len(),
        forall|i: int|
            0 <= i < r@.len() ==> (#[trigger] r@[i])@ == box_at(
                matches@[i].0 as int,
                matches@[i].1 as int,
                template_width as int,
                template_height as int,
                label@,
            ),
        all_wf(views(r@)),
{
    let mut r: Vec<BoundingBox> = Vec::new();
    let mut i: usize = 0;
    while i < matches.len()
        invariant
            i <= matches@.len(),
            r@.len() == i,
            template_width > 0,
            template_height > 0,
            forall|j: int|
                0 <= j < matches@.len() ==> (#[trigger] matches@[j]).0 + template_width <= i32::MAX
                    && matches@[j].1 + template_height <= i32::MAX,
            forall|j: int|
                0 <= j < i ==> (#[trigger] r@[j])@ == box_at(
                    matches@[j].0 as int,
                    matches@[j].1 as int,
                    template_width as int,
                    template_height as int,
                    label@,
                ),
        decreases matches@.len() - i,
    {
        let (x, y) = matches[i];
        r.push(BoundingBox {
            x1: x,
            y1: y,
            x2: x + template_width,
            y2: y + template_height,
            label: label.clone(),
        });
        i = i + 1;
    }
    r
}

} // verus!
