//! The mathematical model of a layout: widths and positions as functions of
//! the parent links and label widths of a tree.

use vstd::prelude::*;

verus! {

/// The parent links and label widths of a tree whose nodes are numbered in
/// pre-order.
pub struct Shape {
    /// For each node the number of its parent; `None` for the root.
    pub parents: Seq<Option<int>>,
    /// For each node the width that its own label needs.
    pub extents: Seq<int>,
}

impl Shape {
    /// The number of nodes.
    pub open spec fn len(self) -> int {
        self.parents.len() as int
    }

    /// Node 0 is the only root, every other node comes after its parent, and
    /// every label has a width of at least 1.
    pub open spec fn wf(self) -> bool {
        &&& self.extents.len() == self.parents.len()
        &&& forall|i: int| 0 <= i < self.len() ==> #[trigger] self.extents[i] >= 1
        &&& forall|i: int|
            0 <= i < self.len() ==> match #[trigger] self.parents[i] {
                Some(p) => 0 <= p < i,
                None => i == 0,
            }
    }

    /// The sum of the subtree widths of those children of `p` that are
    /// numbered `from` or higher.
    pub open spec fn children_extent_from(self, p: int, from: int) -> int
        decreases self.len() - p, self.len() - from,
    {
        if 0 <= p < from < self.len() {
            (if self.parents[from] == Some(p) {
                self.subtree_extent(from)
            } else {
                0
            }) + self.children_extent_from(p, from + 1)
        } else {
            0
        }
    }

    /// The width reserved for node `i` and everything below it: the width of
    /// its label or the sum of the widths of its children's subtrees,
    /// whichever is larger.
    pub open spec fn subtree_extent(self, i: int) -> int
        decreases self.len() - i, self.len() + 1,
    {
        if 0 <= i < self.len() {
            let below = self.children_extent_from(i, i + 1);
            if self.extents[i] >= below {
                self.extents[i]
            } else {
                below
            }
        } else {
            0
        }
    }

    /// The sum of the subtree widths of the children of `p`.
    pub open spec fn children_extent(self, p: int) -> int {
        self.children_extent_from(p, p + 1)
    }

    /// The left edge of the span reserved for the subtree of node `i`. The
    /// root starts at 0. The children of a node share a span as wide as
    /// their subtrees together, which starts half that width left of the
    /// node's centre; they fill it from the left in their order.
    pub open spec fn slot_start(self, i: int) -> int
        decreases i,
    {
        if 0 < i < self.len() {
            match self.parents[i] {
                Some(p) => if 0 <= p < i {
                    self.slot_start(p) + self.subtree_extent(p) / 2 - self.children_extent(p) / 2
                        + (self.children_extent(p) - self.children_extent_from(p, i))
                } else {
                    0
                },
                None => 0,
            }
        } else {
            0
        }
    }

    /// The right edge of the span reserved for the subtree of node `i`.
    pub open spec fn slot_end(self, i: int) -> int {
        self.slot_start(i) + self.subtree_extent(i)
    }

    /// The horizontal centre of node `i`: the middle of its span.
    pub open spec fn x_center(self, i: int) -> int {
        self.slot_start(i) + self.subtree_extent(i) / 2
    }

    /// The left edge of the span that the children of `p` share.
    pub open spec fn children_start(self, p: int) -> int {
        self.x_center(p) - self.children_extent(p) / 2
    }

    /// The width of the whole layout.
    pub open spec fn width(self) -> int {
        self.subtree_extent(0)
    }
}

impl Shape {
    /// A subtree is at least as wide as the label of its root.
    pub proof fn lemma_subtree_covers_label(self, i: int)
        requires
            self.wf(),
            0 <= i < self.len(),
        ensures
            1 <= self.extents[i] <= self.subtree_extent(i),
            self.children_extent(i) <= self.subtree_extent(i),
    {
    }

    /// A partial sum of subtree widths is not negative.
    pub proof fn lemma_children_extent_from_nonnegative(self, p: int, from: int)
        requires
            self.wf(),
        ensures
            0 <= self.children_extent_from(p, from),
        decreases self.len() - from,
    {
        if 0 <= p < from < self.len() {
            self.lemma_children_extent_from_nonnegative(p, from + 1);
            self.lemma_subtree_covers_label(from);
        }
    }

    /// Starting the sum over the children of `p` later makes it no larger,
    /// and leaves it unchanged where no child of `p` is skipped.
    pub proof fn lemma_children_extent_from_later(self, p: int, a: int, b: int)
        requires
            self.wf(),
            0 <= p < a <= b,
        ensures
            self.children_extent_from(p, b) <= self.children_extent_from(p, a),
            (forall|j: int| a <= j < b && j < self.len() ==> self.parents[j] != Some(p))
                ==> self.children_extent_from(p, b) == self.children_extent_from(p, a),
        decreases b - a,
    {
        if a < b {
            self.lemma_children_extent_from_later(p, a + 1, b);
            if a < self.len() {
                self.lemma_subtree_covers_label(a);
            }
        }
    }

    /// The subtree of a node is at least as wide as its label and as its
    /// children together.
    pub proof fn lemma_extent_order(self, i: int)
        requires
            self.wf(),
            0 <= i < self.len(),
        ensures
            1 <= self.extents[i] <= self.subtree_extent(i),
            0 <= self.children_extent(i) <= self.subtree_extent(i),
    {
        self.lemma_subtree_covers_label(i);
        self.lemma_children_extent_from_nonnegative(i, i + 1);
    }

    /// The span of a child lies within the span that the children of its
    /// parent share, and that span lies within the span of the parent.
    pub proof fn lemma_child_slot(self, j: int)
        requires
            self.wf(),
            0 < j < self.len(),
        ensures
            self.parents[j] is Some,
            ({
                let p = self.parents[j]->0;
                &&& 0 <= p < j
                &&& self.children_extent_from(p, j) == self.subtree_extent(j)
                    + self.children_extent_from(p, j + 1)
                &&& self.slot_start(j) == self.children_start(p) + self.children_extent(p)
                    - self.children_extent_from(p, j)
                &&& self.slot_start(p) <= self.children_start(p) <= self.slot_start(j)
                &&& self.slot_end(j) <= self.children_start(p) + self.children_extent(p)
                    <= self.slot_end(p)
            }),
    {
        let p = self.parents[j]->0;
        self.lemma_extent_order(p);
        self.lemma_extent_order(j);
        self.lemma_children_extent_from_later(p, p + 1, j);
        self.lemma_children_extent_from_nonnegative(p, j + 1);
    }

    /// Every span lies between 0 and the width of the layout.
    pub proof fn lemma_slot_bounds(self, i: int)
        requires
            self.wf(),
            0 <= i < self.len(),
        ensures
            0 <= self.slot_start(i),
            self.slot_end(i) <= self.width(),
        decreases i,
    {
        if i > 0 {
            self.lemma_child_slot(i);
            self.lemma_slot_bounds(self.parents[i]->0);
        }
    }

    /// No subtree is wider than the layout.
    pub proof fn lemma_subtree_within_width(self, i: int)
        requires
            self.wf(),
            0 <= i < self.len(),
        ensures
            self.subtree_extent(i) <= self.width(),
    {
        self.lemma_slot_bounds(i);
    }

    /// The spans of two children of one parent do not overlap: that of the
    /// earlier child ends where that of the later one starts, or left of it.
    pub proof fn lemma_siblings_apart(self, a: int, b: int)
        requires
            self.wf(),
            0 <= a < b < self.len(),
            self.parents[a] == self.parents[b],
        ensures
            self.slot_end(a) <= self.slot_start(b),
    {
        self.lemma_child_slot(b);
        self.lemma_child_slot(a);
        let p = self.parents[a]->0;
        self.lemma_children_extent_from_later(p, a + 1, b);
    }

    /// The centre of a child is no farther from the centre of its parent
    /// than half the width that the children of the parent have together.
    pub proof fn lemma_child_near_parent(self, c: int)
        requires
            self.wf(),
            0 < c < self.len(),
        ensures
            self.parents[c] is Some,
            ({
                let p = self.parents[c]->0;
                &&& self.x_center(p) - self.children_extent(p) / 2 <= self.x_center(c)
                &&& self.x_center(c) <= self.x_center(p) + self.children_extent(p) / 2
            }),
    {
        self.lemma_child_slot(c);
        self.lemma_extent_order(c);
    }
}

} // verus!
