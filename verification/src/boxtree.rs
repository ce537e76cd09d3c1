//! R-trees of numbered boxes, from the `rstar` crate.

use rstar::primitives::{GeomWithData, Rectangle};
use rstar::{RTree, AABB};
use vstd::prelude::*;
use crate::bounds::Bbox;

verus! {

/// An R-tree of boxes, each with its number in the list that the tree was made
/// from.
#[verifier::external_body]
pub struct BoxTree {
    tree: RTree<GeomWithData<Rectangle<[i64; 2]>, usize>>,
}

/// The boxes of a tree, by their numbers.
pub uninterp spec fn boxes_of(tree: BoxTree) -> Seq<Bbox>;

/// `RTree::bulk_load`: the tree holds exactly the boxes of the list. Corners in
/// the wrong order would be put right there, so they are left out.
#[verifier::external_body]
pub(crate) fn bulk_load(boxes: &Vec<Bbox>) -> (r: BoxTree)
    requires
        forall|i: int| 0 <= i < boxes@.len() ==> (#[trigger] boxes@[i]).is_proper(),
    ensures
        boxes_of(r) == boxes@,
{
    let items = boxes.iter().enumerate().map(
        |(i, b)|
            GeomWithData::new(
                Rectangle::from_corners([b.min_lon, b.min_lat], [b.max_lon, b.max_lat]),
                i,
            ),
    ).collect();
    BoxTree { tree: RTree::bulk_load(items) }
}

/// The list holds the numbers of exactly the boxes that meet `area`, each once.
pub open spec fn lists_meeting(list: Seq<usize>, boxes: Seq<Bbox>, area: Bbox) -> bool {
    &&& list.no_duplicates()
    &&& forall|k: int|
        0 <= k < list.len() ==> (#[trigger] list[k]) < boxes.len() && area.meets(
            boxes[list[k] as int],
        )
    &&& forall|i: int|
        0 <= i < boxes.len() && area.meets(#[trigger] boxes[i]) ==> list.contains(i as usize)
}

/// `RTree::locate_in_envelope_intersecting`: exactly the boxes that have a point
/// in common with `area`, an edge included, each once, in an order that is not
/// stated.
#[verifier::external_body]
pub(crate) fn locate(tree: &BoxTree, area: &Bbox) -> (r: Vec<usize>)
    requires
        area.is_proper(),
    ensures
        lists_meeting(r@, boxes_of(*tree), *area),
{
    let area = AABB::from_corners([area.min_lon, area.min_lat], [area.max_lon, area.max_lat]);
    tree.tree.locate_in_envelope_intersecting(&area).map(|item| item.data).collect()
}

/// `RTree::size`: the number of boxes.
#[verifier::external_body]
pub(crate) fn size(tree: &BoxTree) -> (r: usize)
    ensures
        r == boxes_of(*tree).len(),
{
    tree.tree.size()
}

} // verus!
