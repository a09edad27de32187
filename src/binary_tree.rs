use vstd::prelude::*;

verus! {

/// A binary tree whose nodes each carry an element.
pub struct Tree<T> {
    left: Option<Box<Tree<T>>>,
    right: Option<Box<Tree<T>>>,
    element: T,
}

/// Number of nodes in a perfect binary tree of the given height
/// (a single node has height 0).
pub open spec fn perfect_size(height: nat) -> nat
    decreases height,
{
    if height == 0 {
        1
    } else {
        2 * perfect_size((height - 1) as nat) + 1
    }
}

impl<T> Tree<T> {
    /// Number of nodes in an optional subtree.
    pub closed spec fn subtree_size(t: Option<Box<Tree<T>>>) -> nat
        decreases t,
    {
        match t {
            Some(b) => b.size(),
            None => 0,
        }
    }

    /// Number of nodes in the tree, the root included.
    pub closed spec fn size(self) -> nat
        decreases self,
    {
        1 + Self::subtree_size(self.left) + Self::subtree_size(self.right)
    }

    /// Both subtrees are present and perfect of height `height - 1`, down to
    /// leaves at height 0, which have no subtrees.
    pub closed spec fn is_perfect(self, height: nat) -> bool
        decreases self,
    {
        if height == 0 {
            self.left is None && self.right is None
        } else {
            match (self.left, self.right) {
                (Some(l), Some(r)) => l.is_perfect((height - 1) as nat) && r.is_perfect(
                    (height - 1) as nat,
                ),
                _ => false,
            }
        }
    }

    /// Counts the nodes of the tree.
    pub fn count_nodes(&self) -> (r: usize)
        requires
            self.size() <= usize::MAX,
        ensures
            r == self.size(),
        decreases self,
    {
        let left_sum: usize = match self.left {
            Some(ref tree) => tree.count_nodes(),
            _ => 0,
        };
        let right_sum: usize = match self.right {
            Some(ref tree) => tree.count_nodes(),
            _ => 0,
        };
        1 + left_sum + right_sum
    }
}

impl Tree<()> {
    /// Builds a perfect binary tree of the given height.
    pub fn build(height: usize) -> (r: Self)
        ensures
            r.is_perfect(height as nat),
            r.size() == perfect_size(height as nat),
        decreases height,
    {
        if height == 0 {
            Self { left: None, right: None, element: () }
        } else {
            let remaining_height = height - 1;
            let left = Some(Box::new(Tree::<()>::build(remaining_height)));
            let right = Some(Box::new(Tree::<()>::build(remaining_height)));
            Self { left, right, element: () }
        }
    }
}

} // verus!
