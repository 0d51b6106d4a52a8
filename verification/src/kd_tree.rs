//! Insert-only discriminator tree for determining rectangle overlap.
use vstd::prelude::*;
use vstd::multiset::Multiset;
use crate::rect::Rect;

verus! {

/// One node of the discriminator tree. A node owns at most two children and
/// one rectangle; the tree is never rebalanced and nothing is ever removed.
pub struct TreeNode {
    left: Option<Box<TreeNode>>,
    right: Option<Box<TreeNode>>,
    rect: Rect,
}

/// Insert-only discriminator tree over rectangles.
///
/// The four scalar coordinates `(min.x, min.y, max.x, max.y)` act as four
/// discriminating axes, cycled through as depth increases. Adding rectangles
/// is irreversible. The tree does not balance itself: its efficiency (not its
/// correctness) depends on the caller inserting pairwise non-overlapping,
/// spatially spread rectangles.
pub enum KDTree {
    Empty,
    Populated { root: TreeNode },
}

impl TreeNode {
    /// The multiset of rectangles stored below an optional node.
    spec fn opt_rects(o: Option<Box<TreeNode>>) -> Multiset<Rect>
        decreases o,
    {
        match o {
            None => Multiset::empty(),
            Some(n) => n.rects(),
        }
    }

    /// The multiset of rectangles stored in this subtree.
    spec fn rects(self) -> Multiset<Rect>
        decreases self,
    {
        Self::opt_rects(self.left).add(Self::opt_rects(self.right)).insert(self.rect)
    }

    /// Structural invariant of a node sitting at discriminating axis `dim`:
    /// everything to the left compares below the node's rectangle on that
    /// axis, everything to the right does not, and the children satisfy the
    /// same at the next axis in the cycle.
    spec fn wf(self, dim: int) -> bool
        decreases self,
    {
        &&& 0 <= dim < 4
        &&& forall|x: Rect|
            Self::opt_rects(self.left).contains(x) ==> x.spec_dim_less(self.rect, dim)
        &&& forall|x: Rect|
            Self::opt_rects(self.right).contains(x) ==> !x.spec_dim_less(self.rect, dim)
        &&& match self.left {
            Some(l) => l.wf(if dim == 3 { 0 } else { dim + 1 }),
            None => true,
        }
        &&& match self.right {
            Some(r) => r.wf(if dim == 3 { 0 } else { dim + 1 }),
            None => true,
        }
    }

    fn new(rect: Rect) -> (n: TreeNode)
        ensures
            n == (TreeNode { left: None, right: None, rect }),
            n.rects() == Multiset::empty().insert(rect),
            forall|dim: int| 0 <= dim < 4 ==> n.wf(dim),
    {
        let n = TreeNode { left: None, right: None, rect };
        proof {
            assert(n.rects() =~= Multiset::empty().insert(rect));
            assert forall|dim: int| 0 <= dim < 4 implies n.wf(dim) by {
                assert(Self::opt_rects(n.left) =~= Multiset::empty());
                assert(Self::opt_rects(n.right) =~= Multiset::empty());
            }
        }
        n
    }

    fn add_rect_opt(node: &mut Option<Box<TreeNode>>, r: Rect, dim: usize)
        requires
            dim < 4,
            old(node).is_some() ==> old(node).unwrap().wf(dim as int),
        ensures
            final(node).is_some(),
            final(node).unwrap().wf(dim as int),
            Self::opt_rects(*final(node)) == Self::opt_rects(*old(node)).insert(r),
            old(node).is_none() ==> final(node).unwrap()
                == (TreeNode { left: None, right: None, rect: r }),
            old(node).is_some() ==> final(node).unwrap().rect == old(node).unwrap().rect,
        decreases *old(node),
    {
        match node.take() {
            None => {
                *node = Some(Box::new(TreeNode::new(r)));
                proof {
                    assert(Self::opt_rects(*node) =~= Multiset::empty().insert(r));
                }
            },
            Some(mut boxed) => {
                boxed.add_rect(r, dim);
                *node = Some(boxed);
            },
        }
    }

    fn add_rect(&mut self, r: Rect, curr_dim: usize)
        requires
            curr_dim < 4,
            old(self).wf(curr_dim as int),
        ensures
            final(self).wf(curr_dim as int),
            final(self).rects() == old(self).rects().insert(r),
            final(self).rect == old(self).rect,
            r.spec_dim_less(old(self).rect, curr_dim as int)
                ==> final(self).right == old(self).right
                    && Self::opt_rects(final(self).left)
                        == Self::opt_rects(old(self).left).insert(r),
            !r.spec_dim_less(old(self).rect, curr_dim as int)
                ==> final(self).left == old(self).left
                    && Self::opt_rects(final(self).right)
                        == Self::opt_rects(old(self).right).insert(r),
        decreases *old(self),
    {
        let next_dim = if curr_dim == 3 { 0 } else { curr_dim + 1 };
        if r.is_dim_less(&self.rect, curr_dim) {
            Self::add_rect_opt(&mut self.left, r, next_dim);
            proof {
                assert forall|x: Rect| Self::opt_rects(self.left).contains(x)
                    implies x.spec_dim_less(self.rect, curr_dim as int) by {
                    if x != r {
                        assert(Self::opt_rects(old(self).left).contains(x));
                    }
                }
                assert(self.rects() =~= old(self).rects().insert(r));
            }
        } else {
            Self::add_rect_opt(&mut self.right, r, next_dim);
            proof {
                assert forall|x: Rect| Self::opt_rects(self.right).contains(x)
                    implies !x.spec_dim_less(self.rect, curr_dim as int) by {
                    if x != r {
                        assert(Self::opt_rects(old(self).right).contains(x));
                    }
                }
                assert(self.rects() =~= old(self).rects().insert(r));
            }
        }
    }

    fn overlaps(&self, query: &Rect, curr_dim: usize) -> (res: bool)
        requires
            curr_dim < 4,
            self.wf(curr_dim as int),
        ensures
            res == exists|x: Rect| self.rects().contains(x) && x.spec_overlaps(*query),
        decreases *self,
    {
        if self.rect.overlaps(query) {
            proof {
                assert(self.rects().contains(self.rect));
            }
            return true;
        }
        let next_dim = if curr_dim == 3 { 0 } else { curr_dim + 1 };
        if curr_dim <= 1 {
            // A min-coordinate axis: search the left side first, then prune
            // the right side when every rectangle there starts past the query.
            let left_hit = match &self.left {
                None => false,
                Some(l) => l.overlaps(query, next_dim),
            };
            if left_hit {
                proof {
                    let x = choose|x: Rect|
                        TreeNode::opt_rects(self.left).contains(x) && x.spec_overlaps(*query);
                    assert(self.rects().contains(x));
                }
                true
            } else {
                let query_max = if curr_dim == 0 { query.max.x } else { query.max.y };
                let node_min = if curr_dim == 0 { self.rect.min.x } else { self.rect.min.y };
                if query_max < node_min {
                    proof {
                        assert forall|x: Rect| self.rects().contains(x)
                            implies !x.spec_overlaps(*query) by {
                            if Self::opt_rects(self.right).contains(x) {
                                crate::rect::lemma_dim_less_coord(x, self.rect, curr_dim as int);
                            }
                        }
                    }
                    false
                } else {
                    let right_hit = match &self.right {
                        None => false,
                        Some(rn) => rn.overlaps(query, next_dim),
                    };
                    proof {
                        if right_hit {
                            let x = choose|x: Rect|
                                TreeNode::opt_rects(self.right).contains(x)
                                    && x.spec_overlaps(*query);
                            assert(self.rects().contains(x));
                        } else {
                            assert forall|x: Rect| self.rects().contains(x)
                                implies !x.spec_overlaps(*query) by {}
                        }
                    }
                    right_hit
                }
            }
        } else {
            // A max-coordinate axis: search the right side first, then prune
            // the left side when every rectangle there ends before the query.
            let right_hit = match &self.right {
                None => false,
                Some(rn) => rn.overlaps(query, next_dim),
            };
            if right_hit {
                proof {
                    let x = choose|x: Rect|
                        TreeNode::opt_rects(self.right).contains(x) && x.spec_overlaps(*query);
                    assert(self.rects().contains(x));
                }
                true
            } else {
                let query_min = if curr_dim == 2 { query.min.x } else { query.min.y };
                let node_max = if curr_dim == 2 { self.rect.max.x } else { self.rect.max.y };
                if query_min > node_max {
                    proof {
                        assert forall|x: Rect| self.rects().contains(x)
                            implies !x.spec_overlaps(*query) by {
                            if Self::opt_rects(self.left).contains(x) {
                                crate::rect::lemma_dim_less_coord(x, self.rect, curr_dim as int);
                            }
                        }
                    }
                    false
                } else {
                    let left_hit = match &self.left {
                        None => false,
                        Some(l) => l.overlaps(query, next_dim),
                    };
                    proof {
                        if left_hit {
                            let x = choose|x: Rect|
                                TreeNode::opt_rects(self.left).contains(x)
                                    && x.spec_overlaps(*query);
                            assert(self.rects().contains(x));
                        } else {
                            assert forall|x: Rect| self.rects().contains(x)
                                implies !x.spec_overlaps(*query) by {}
                        }
                    }
                    left_hit
                }
            }
        }
    }
}

impl KDTree {
    /// The multiset of every rectangle ever added to the tree.
    pub closed spec fn rects(self) -> Multiset<Rect> {
        match self {
            KDTree::Empty => Multiset::empty(),
            KDTree::Populated { root } => root.rects(),
        }
    }

    /// Well-formedness: the branching discipline holds at every node,
    /// starting from discriminating axis `0` at the root.
    pub closed spec fn wf(self) -> bool {
        match self {
            KDTree::Empty => true,
            KDTree::Populated { root } => root.wf(0),
        }
    }

    /// Add a rectangle to the tree. This cannot be undone.
    pub fn add_rect(&mut self, r: Rect)
        requires
            old(self).wf(),
        ensures
            final(self).wf(),
            final(self)@ == old(self)@.insert(r),
    {
        let mut taken = KDTree::Empty;
        core::mem::swap(self, &mut taken);
        match taken {
            KDTree::Empty => {
                *self = KDTree::Populated { root: TreeNode::new(r) };
                proof {
                    assert(self@ =~= old(self)@.insert(r));
                }
            },
            KDTree::Populated { root: mut node } => {
                node.add_rect(r, 0);
                *self = KDTree::Populated { root: node };
            },
        }
    }

    /// Determine if a rectangle overlaps any rectangle in the tree; the
    /// answer agrees with a linear scan over everything ever added.
    pub fn overlaps(&self, r: &Rect) -> (res: bool)
        requires
            self.wf(),
        ensures
            res == exists|x: Rect| self@.contains(x) && x.spec_overlaps(*r),
    {
        match self {
            KDTree::Empty => false,
            KDTree::Populated { root } => root.overlaps(r, 0),
        }
    }
}

impl View for KDTree {
    type V = Multiset<Rect>;

    open spec fn view(&self) -> Multiset<Rect> {
        self.rects()
    }
}

impl Default for KDTree {
    /// The empty tree: well-formed and holding no rectangle.
    fn default() -> (t: Self)
        ensures
            t.wf(),
            t@ == Multiset::<Rect>::empty(),
    {
        KDTree::Empty
    }
}

} // verus!
