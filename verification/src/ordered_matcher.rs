//! The expectation of a strict drain: which index path comes next.

use crate::index_path::IndexPath;
use crate::ordered::Ordered;
use vstd::prelude::*;

verus! {

/// What a strict drain waits for: the index path that must be delivered next
/// and, for every level of that path, how many nodes of the level are still
/// to be delivered.
pub struct OrderedMatcher {
    looking_for: IndexPath,
    child_count_stack: Vec<usize>,
}

/// An `OrderedMatcher` as a mathematical value.
pub struct MatcherView {
    pub looking_for: Seq<usize>,
    pub child_count_stack: Seq<usize>,
}

/// The index path of the next sibling of `path`.
pub open spec fn next_sibling(path: Seq<usize>) -> Seq<usize>
    recommends
        path.len() > 0,
{
    path.drop_last().push((path.last() + 1) as usize)
}

impl MatcherView {
    /// The expectation of a drain that has delivered nothing yet: the single
    /// root, at `[0]`.
    pub open spec fn initial() -> MatcherView {
        MatcherView { looking_for: seq![0usize], child_count_stack: seq![1usize] }
    }

    /// Nothing more is expected.
    pub open spec fn is_none(self) -> bool {
        self.looking_for.len() == 0
    }

    /// The two stacks have one entry per level; the deepest level still
    /// expects a node; and at no level can the sibling index overflow before
    /// the level's count runs out.
    pub open spec fn wf(self) -> bool {
        &&& self.looking_for.len() == self.child_count_stack.len()
        &&& self.child_count_stack.len() > 0 ==> self.child_count_stack.last() > 0
        &&& forall|i: int|
            0 <= i < self.looking_for.len() ==> #[trigger] self.looking_for[i]
                + self.child_count_stack[i] <= usize::MAX - (if i + 1
                < self.looking_for.len() {
                1int
            } else {
                0int
            })
    }

    /// Leaves every level that has no node left: drops the level and moves
    /// the level above to its next sibling.
    pub open spec fn unwind(self) -> MatcherView
        decreases self.child_count_stack.len(),
    {
        if self.child_count_stack.len() > 0 && self.child_count_stack.last() == 0 {
            let path = if self.looking_for.len() > 0 {
                self.looking_for.drop_last()
            } else {
                self.looking_for
            };
            let path = if path.len() > 0 {
                next_sibling(path)
            } else {
                path
            };
            (MatcherView {
                looking_for: path,
                child_count_stack: self.child_count_stack.drop_last(),
            }).unwind()
        } else {
            self
        }
    }

    /// The expectation after the expected node has been delivered with
    /// `child_count` children announced: its first child if it has any, else
    /// the next sibling, leaving every level that has run out.
    pub open spec fn advance(self, child_count: usize) -> MatcherView
        recommends
            self.child_count_stack.len() > 0,
    {
        let stack = self.child_count_stack.drop_last().push(
            (self.child_count_stack.last() - 1) as usize,
        );
        if child_count > 0 {
            MatcherView {
                looking_for: self.looking_for.push(0usize),
                child_count_stack: stack.push(child_count),
            }
        } else {
            (MatcherView {
                looking_for: next_sibling(self.looking_for),
                child_count_stack: stack,
            }).unwind()
        }
    }
}

impl View for OrderedMatcher {
    type V = MatcherView;

    closed spec fn view(&self) -> MatcherView {
        MatcherView {
            looking_for: self.looking_for@,
            child_count_stack: self.child_count_stack@,
        }
    }
}

impl OrderedMatcher {
    /// The matcher of a drain that has delivered nothing yet.
    pub fn new() -> (matcher: OrderedMatcher)
        ensures
            matcher@ == MatcherView::initial(),
            matcher@.wf(),
    {
        let mut path: Vec<usize> = Vec::new();
        path.push(0);
        let mut stack: Vec<usize> = Vec::new();
        stack.push(1);
        let matcher = OrderedMatcher { looking_for: IndexPath::new(path), child_count_stack: stack };
        assert(matcher@.looking_for =~= seq![0usize]);
        assert(matcher@.child_count_stack =~= seq![1usize]);
        matcher
    }

    /// Whether nothing more is expected.
    pub fn is_none(&self) -> (none: bool)
        ensures
            none == self@.is_none(),
    {
        self.looking_for.is_empty()
    }

    /// The index path that must be delivered next.
    pub fn looking_for(&self) -> (path: &IndexPath)
        ensures
            path@ == self@.looking_for,
    {
        &self.looking_for
    }

    /// Records that the expected node was delivered as `ordered` and moves
    /// the expectation on.
    pub fn advance_past<T>(&mut self, ordered: &Ordered<T>)
        requires
            old(self)@.wf(),
            !old(self)@.is_none(),
        ensures
            final(self)@ == old(self)@.advance(ordered.child_count),
            final(self)@.wf(),
    {
        let top: usize = self.child_count_stack.len() - 1;
        let remaining: usize = self.child_count_stack[top];
        self.child_count_stack[top] = remaining - 1;
        assert(self.child_count_stack@ =~= old(self)@.child_count_stack.drop_last().push(
            (old(self)@.child_count_stack.last() - 1) as usize,
        ));
        if ordered.child_count > 0 {
            self.looking_for.push(0);
            self.child_count_stack.push(ordered.child_count);
        } else {
            self.looking_for.increment_last();
            while self.child_count_stack.len() > 0 && self.child_count_stack[
                self.child_count_stack.len() - 1] == 0
                invariant
                    self@.looking_for.len() == self@.child_count_stack.len(),
                    self@.unwind() == old(self)@.advance(ordered.child_count),
                    forall|i: int|
                        0 <= i < self@.looking_for.len() ==> #[trigger] self@.looking_for[i]
                            + self@.child_count_stack[i] <= usize::MAX - (if i + 1
                            < self@.looking_for.len() {
                            1int
                        } else {
                            0int
                        }),
                decreases self.child_count_stack.len(),
            {
                let ghost before = self@;
                self.looking_for.pop();
                self.child_count_stack.pop();
                if !self.looking_for.is_empty() {
                    self.looking_for.increment_last();
                }
                assert(self@ == (MatcherView {
                    looking_for: if before.looking_for.drop_last().len() > 0 {
                        next_sibling(before.looking_for.drop_last())
                    } else {
                        before.looking_for.drop_last()
                    },
                    child_count_stack: before.child_count_stack.drop_last(),
                }));
            }
        }
    }
}

impl Default for OrderedMatcher {
    /// The matcher of a drain that has delivered nothing yet.
    fn default() -> (matcher: OrderedMatcher)
        ensures
            matcher@ == MatcherView::initial(),
            matcher@.wf(),
    {
        OrderedMatcher::new()
    }
}

} // verus!
