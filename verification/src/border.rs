//! Bounding boxes of foreground pixels and their merge.

use vstd::prelude::*;

verus! {

/// An axis-aligned rectangle in inclusive pixel coordinates.
///
/// A box that was grown around at least one pixel has `left <= right` and
/// `top <= bottom`. Nothing here demands that: a box that was never grown is
/// inverted, and the merge below treats the four edges independently.
#[derive(Clone, Copy, Debug, PartialEq, Eq, Structural)]
pub struct BorderBox {
    pub left: u32,
    pub right: u32,
    pub top: u32,
    pub bottom: u32,
}

impl BorderBox {
    /// The box reaches at least as far as `other` on all four edges.
    pub open spec fn encloses(self, other: BorderBox) -> bool {
        &&& self.left <= other.left
        &&& self.top <= other.top
        &&& other.right <= self.right
        &&& other.bottom <= self.bottom
    }

    /// The smallest box that encloses both `self` and `other`.
    pub open spec fn hull(self, other: BorderBox) -> BorderBox {
        BorderBox {
            left: if other.left < self.left { other.left } else { self.left },
            right: if other.right > self.right { other.right } else { self.right },
            top: if other.top < self.top { other.top } else { self.top },
            bottom: if other.bottom > self.bottom { other.bottom } else { self.bottom },
        }
    }

    /// The box has `left <= right < width` and `top <= bottom < height`: it
    /// names at least one pixel, and only pixels, of an image of that size.
    pub open spec fn lies_within(self, width: u32, height: u32) -> bool {
        &&& self.left <= self.right < width
        &&& self.top <= self.bottom < height
    }

    /// The box grown, where needed, to hold the pixel in column `x` of row
    /// `y`.
    pub open spec fn with_pixel(self, x: u32, y: u32) -> BorderBox {
        BorderBox {
            left: if x < self.left { x } else { self.left },
            right: if x > self.right { x } else { self.right },
            top: if y < self.top { y } else { self.top },
            bottom: if y > self.bottom { y } else { self.bottom },
        }
    }

    /// Grows the box, where needed, to hold the pixel in column `x` of row
    /// `y`.
    pub fn include_pixel(&mut self, x: u32, y: u32)
        ensures
            *final(self) == old(self).with_pixel(x, y),
    {
        if x < self.left {
            self.left = x;
        }
        if x > self.right {
            self.right = x;
        }
        if y < self.top {
            self.top = y;
        }
        if y > self.bottom {
            self.bottom = y;
        }
    }

    /// Grows the box to enclose `other` as well.
    pub fn merged_with(self, other: BorderBox) -> (merged: BorderBox)
        ensures
            merged == self.hull(other),
    {
        BorderBox {
            left: if other.left < self.left { other.left } else { self.left },
            right: if other.right > self.right { other.right } else { self.right },
            top: if other.top < self.top { other.top } else { self.top },
            bottom: if other.bottom > self.bottom { other.bottom } else { self.bottom },
        }
    }

    /// Tells whether the box names pixels of an image of the given size.
    pub fn is_within(&self, width: u32, height: u32) -> (within: bool)
        ensures
            within == self.lies_within(width, height),
    {
        self.left <= self.right && self.right < width && self.top <= self.bottom
            && self.bottom < height
    }
}

/// The merge of a sequence of boxes: nothing for the empty sequence, else the
/// hull of all of them, taken from the first box on.
pub open spec fn merged(boxes: Seq<BorderBox>) -> Option<BorderBox>
    decreases boxes.len(),
{
    if boxes.len() == 0 {
        None
    } else {
        Some(merged_onto(merged(boxes.drop_last()), boxes.last()))
    }
}

/// One more box merged onto what has been merged so far.
pub open spec fn merged_onto(so_far: Option<BorderBox>, next: BorderBox) -> BorderBox {
    match so_far {
        None => next,
        Some(merged) => merged.hull(next),
    }
}

/// The merge of two merges, as a parallel reduction combines them.
pub open spec fn combined(first: Option<BorderBox>, second: Option<BorderBox>) -> Option<
    BorderBox,
> {
    match (first, second) {
        (None, _) => second,
        (_, None) => first,
        (Some(a), Some(b)) => Some(a.hull(b)),
    }
}

/// `m` is the least box that encloses every box of `boxes`: it encloses each
/// of them, and each of its edges is the edge of one of them.
pub open spec fn is_least_enclosing(m: BorderBox, boxes: Seq<BorderBox>) -> bool {
    &&& forall|i: int| 0 <= i < boxes.len() ==> m.encloses(#[trigger] boxes[i])
    &&& exists|i: int| 0 <= i < boxes.len() && m.left == (#[trigger] boxes[i]).left
    &&& exists|i: int| 0 <= i < boxes.len() && m.right == (#[trigger] boxes[i]).right
    &&& exists|i: int| 0 <= i < boxes.len() && m.top == (#[trigger] boxes[i]).top
    &&& exists|i: int| 0 <= i < boxes.len() && m.bottom == (#[trigger] boxes[i]).bottom
}

/// Merges the boxes into the smallest box that contains them all; there is
/// none for an empty list.
pub fn merge_border_boxes(boxes: Vec<BorderBox>) -> (result: Option<BorderBox>)
    ensures
        result == merged(boxes@),
        result is None <==> boxes@.len() == 0,
        result matches Some(m) ==> is_least_enclosing(m, boxes@),
{
    if boxes.len() == 0 {
        return None;
    }
    let mut result: BorderBox = boxes[0];
    let mut i: usize = 1;
    assert(merged(boxes@.take(1)) == Some(result)) by {
        assert(boxes@.take(1).drop_last().len() == 0);
        assert(merged(boxes@.take(1).drop_last()) is None);
    }
    while i < boxes.len()
        invariant
            1 <= i <= boxes.len(),
            merged(boxes@.take(i as int)) == Some(result),
        decreases boxes.len() - i,
    {
        assert(boxes@.take(i + 1).drop_last() == boxes@.take(i as int));
        result = result.merged_with(boxes[i]);
        i += 1;
    }
    assert(boxes@.take(i as int) == boxes@);
    proof {
        lemma_merged_is_least_enclosing(boxes@);
    }
    Some(result)
}

/// The merge of a non-empty sequence is the least box enclosing all of it.
pub proof fn lemma_merged_is_least_enclosing(boxes: Seq<BorderBox>)
    requires
        boxes.len() > 0,
    ensures
        merged(boxes) is Some,
        is_least_enclosing(merged(boxes)->0, boxes),
    decreases boxes.len(),
{
    let m = merged(boxes)->0;
    let front = boxes.drop_last();
    let last = boxes.len() - 1;
    if front.len() == 0 {
        assert(m == boxes[last]);
    } else {
        lemma_merged_is_least_enclosing(front);
        let f = merged(front)->0;
        assert(m == f.hull(boxes[last]));
        assert forall|i: int| 0 <= i < boxes.len() implies m.encloses(#[trigger] boxes[i]) by {
            if i < last {
                assert(f.encloses(front[i]));
            }
        }
        let il = choose|i: int| 0 <= i < front.len() && f.left == (#[trigger] front[i]).left;
        let ir = choose|i: int| 0 <= i < front.len() && f.right == (#[trigger] front[i]).right;
        let it = choose|i: int| 0 <= i < front.len() && f.top == (#[trigger] front[i]).top;
        let ib = choose|i: int| 0 <= i < front.len() && f.bottom == (#[trigger] front[i]).bottom;
        assert(boxes[il] == front[il] && boxes[ir] == front[ir]);
        assert(boxes[it] == front[it] && boxes[ib] == front[ib]);
        assert(m.left == boxes[il].left || m.left == boxes[last].left);
        assert(m.right == boxes[ir].right || m.right == boxes[last].right);
        assert(m.top == boxes[it].top || m.top == boxes[last].top);
        assert(m.bottom == boxes[ib].bottom || m.bottom == boxes[last].bottom);
    }
}

/// Any box that encloses every box of the sequence encloses their merge.
pub proof fn lemma_merged_is_smallest(boxes: Seq<BorderBox>, other: BorderBox)
    requires
        boxes.len() > 0,
        forall|i: int| 0 <= i < boxes.len() ==> other.encloses(#[trigger] boxes[i]),
    ensures
        other.encloses(merged(boxes)->0),
{
    lemma_merged_is_least_enclosing(boxes);
}

/// Two least enclosing boxes of sequences with the same members are equal.
proof fn lemma_least_enclosing_same_members(
    m1: BorderBox,
    s1: Seq<BorderBox>,
    m2: BorderBox,
    s2: Seq<BorderBox>,
)
    requires
        is_least_enclosing(m1, s1),
        is_least_enclosing(m2, s2),
        forall|i: int| 0 <= i < s1.len() ==> s2.contains(#[trigger] s1[i]),
        forall|i: int| 0 <= i < s2.len() ==> s1.contains(#[trigger] s2[i]),
    ensures
        m1 == m2,
{
    assert(m1.encloses(m2)) by {
        assert forall|i: int| 0 <= i < s2.len() implies m1.encloses(#[trigger] s2[i]) by {
            assert(s1.contains(s2[i]));
        }
    }
    assert(m2.encloses(m1)) by {
        assert forall|i: int| 0 <= i < s1.len() implies m2.encloses(#[trigger] s1[i]) by {
            assert(s2.contains(s1[i]));
        }
    }
}

/// Merging two boxes does not depend on which comes first.
pub proof fn lemma_hull_commutative(a: BorderBox, b: BorderBox)
    ensures
        a.hull(b) == b.hull(a),
{
}

/// Merging three boxes does not depend on how they are grouped.
pub proof fn lemma_hull_associative(a: BorderBox, b: BorderBox, c: BorderBox)
    ensures
        a.hull(b).hull(c) == a.hull(b.hull(c)),
{
}

/// The merge does not depend on the order of the boxes: any rearrangement of
/// the same boxes merges to the same result.
pub proof fn lemma_merged_any_order(first: Seq<BorderBox>, second: Seq<BorderBox>)
    requires
        first.to_multiset() == second.to_multiset(),
    ensures
        merged(first) == merged(second),
{
    first.to_multiset_ensures();
    second.to_multiset_ensures();
    assert(first.len() == second.len());
    if first.len() > 0 {
        lemma_merged_is_least_enclosing(first);
        lemma_merged_is_least_enclosing(second);
        assert forall|i: int| 0 <= i < first.len() implies second.contains(
            #[trigger] first[i],
        ) by {
            assert(first.contains(first[i]));
            assert(first.to_multiset().count(first[i]) > 0);
        }
        assert forall|i: int| 0 <= i < second.len() implies first.contains(
            #[trigger] second[i],
        ) by {
            assert(second.contains(second[i]));
            assert(second.to_multiset().count(second[i]) > 0);
        }
        lemma_least_enclosing_same_members(
            merged(first)->0,
            first,
            merged(second)->0,
            second,
        );
    }
}

/// Merging a sequence in two parts and combining the two results gives the
/// merge of the whole, wherever the sequence is cut.
pub proof fn lemma_merged_in_parts(first: Seq<BorderBox>, second: Seq<BorderBox>)
    ensures
        merged(first + second) == combined(merged(first), merged(second)),
    decreases second.len(),
{
    if second.len() == 0 {
        assert(first + second == first);
    } else {
        let whole = first + second;
        assert(whole.drop_last() == first + second.drop_last());
        assert(whole.last() == second.last());
        lemma_merged_in_parts(first, second.drop_last());
    }
}

} // verus!
