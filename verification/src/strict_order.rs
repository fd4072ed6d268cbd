//! The order of a strict drain, as mathematics: that the expectation walks
//! the tree of the reads in pre-order, and that a strict drain delivers in
//! that order whatever the order in which the results arrive.

use crate::client_state::ClientState;
use crate::error::Error;
use crate::index_path::{
    lemma_ancestor_first, lemma_lex_less_irreflexive, lemma_siblings_in_order, lex_less,
};
use crate::ordered::{Ordered, OrderedView};
use crate::ordered_matcher::{next_sibling, MatcherView};
use crate::ordered_queue::{buffer_view, lemma_min_index_is_least, OrderedQueueIter, QueueIterView};
use crate::reverse::reversed;
use crate::dir_entry::DirEntry;
use crate::dir_entry_iter::EntryIterView;
use crate::preorder::{
    fits, lemma_serial_reads_in_preorder, lemma_walk_yields_preorder, reads_of, run, serial_reads,
    yields, ReadTree,
};
use crate::read_dir::ReadDir;
use vstd::prelude::*;

verus! {

/// No read of `forest` has so many reads below it that their count would
/// not fit an index.
pub open spec fn bounded<C: ClientState>(forest: Seq<ReadTree<C>>) -> bool
    decreases forest,
{
    forall|i: int|
        0 <= i < forest.len() ==> (#[trigger] forest[i]).children.len() <= usize::MAX && bounded(
            forest[i].children,
        )
}

/// The envelopes in which the workers of a parallel walk send the results
/// of the reads of `forest`, in pre-order. The trees of `forest` are the
/// children of the node at `parent`, from the child at `first` on: each
/// result is placed at its index path and announces the number of reads
/// directly below it.
pub open spec fn envelopes_of<C: ClientState>(
    forest: Seq<ReadTree<C>>,
    parent: Seq<usize>,
    first: nat,
) -> Seq<OrderedView<Result<ReadDir<C>, Error>>>
    decreases forest,
{
    if forest.len() == 0 {
        Seq::empty()
    } else {
        seq![
            OrderedView {
                value: forest[0].result,
                index_path: parent.push(first as usize),
                child_count: forest[0].children.len() as usize,
            },
        ] + envelopes_of(forest[0].children, parent.push(first as usize), 0) + envelopes_of(
            forest.drop_first(),
            parent,
            first + 1,
        )
    }
}

/// The expectation after the envelopes `delivered` have been delivered, in
/// that order.
pub open spec fn advance_all<T>(matcher: MatcherView, delivered: Seq<OrderedView<T>>) -> MatcherView
    decreases delivered.len(),
{
    if delivered.len() == 0 {
        matcher
    } else {
        advance_all(matcher.advance(delivered[0].child_count), delivered.drop_first())
    }
}

/// Every envelope of `delivered` is, at its turn, the one that the
/// expectation asks for.
pub open spec fn expected_in_turn<T>(matcher: MatcherView, delivered: Seq<OrderedView<T>>) -> bool
    decreases delivered.len(),
{
    delivered.len() > 0 ==> {
        &&& !matcher.is_none()
        &&& matcher.looking_for == delivered[0].index_path
        &&& expected_in_turn(matcher.advance(delivered[0].child_count), delivered.drop_first())
    }
}

/// Delivering `a` and then `b` is delivering `a + b`.
pub proof fn lemma_advance_concat<T>(matcher: MatcherView, a: Seq<OrderedView<T>>, b: Seq<OrderedView<T>>)
    ensures
        advance_all(matcher, a + b) == advance_all(advance_all(matcher, a), b),
        expected_in_turn(matcher, a + b) == (expected_in_turn(matcher, a) && expected_in_turn(
            advance_all(matcher, a),
            b,
        )),
    decreases a.len(),
{
    if a.len() == 0 {
        assert(a + b =~= b);
    } else {
        assert((a + b).drop_first() =~= a.drop_first() + b);
        assert((a + b)[0] == a[0]);
        lemma_advance_concat(matcher.advance(a[0].child_count), a.drop_first(), b);
    }
}

/// The expectation when the level that `matcher` is at has been gone
/// through: the sibling index has moved past the `count` nodes of the
/// level, none of them is left, and every level that has run out is left.
pub open spec fn level_done(matcher: MatcherView, parent: Seq<usize>, past: nat) -> MatcherView {
    (MatcherView {
        looking_for: parent.push(past as usize),
        child_count_stack: matcher.child_count_stack.drop_last().push(0usize),
    }).unwind()
}

/// The expectation walks a level and all below it in pre-order: from the
/// moment it asks for the first tree of `forest`, with as many nodes left
/// on the level as `forest` has trees, every envelope of `forest` is the
/// one asked for at its turn, and afterwards the level is done.
pub proof fn lemma_expectation_walks_level<C: ClientState>(
    matcher: MatcherView,
    forest: Seq<ReadTree<C>>,
    parent: Seq<usize>,
    first: nat,
)
    requires
        forest.len() > 0,
        bounded(forest),
        first + forest.len() <= usize::MAX,
        matcher.looking_for == parent.push(first as usize),
        matcher.child_count_stack.len() > 0,
        matcher.child_count_stack.last() == forest.len(),
    ensures
        expected_in_turn(matcher, envelopes_of(forest, parent, first)),
        advance_all(matcher, envelopes_of(forest, parent, first)) == level_done(
            matcher,
            parent,
            first + forest.len(),
        ),
    decreases forest,
{
    let tree = forest[0];
    let path = parent.push(first as usize);
    let head = seq![
        OrderedView {
            value: tree.result,
            index_path: path,
            child_count: tree.children.len() as usize,
        },
    ];
    let inner = envelopes_of(tree.children, path, 0);
    let later = envelopes_of(forest.drop_first(), parent, first + 1);
    let stack = matcher.child_count_stack.drop_last().push((forest.len() - 1) as usize);
    let next = MatcherView { looking_for: parent.push((first + 1) as usize), child_count_stack: stack };
    let after_head = matcher.advance(tree.children.len() as usize);
    assert(next_sibling(path) =~= parent.push((first + 1) as usize));
    assert(head.drop_first() =~= Seq::empty());
    assert(head[0].child_count == tree.children.len() as usize);
    assert(advance_all(after_head, head.drop_first()) == after_head);
    assert(expected_in_turn(after_head, head.drop_first()));
    assert(advance_all(matcher, head) == after_head);
    assert(matcher.looking_for.len() > 0);
    assert(expected_in_turn(matcher, head));
    // After the first tree and all below it, the expectation is at the
    // next sibling, as far as the level has one.
    let after_tree = advance_all(after_head, inner);
    assert(after_tree == next.unwind() && expected_in_turn(after_head, inner)) by {
        if tree.children.len() > 0 {
            assert(after_head == (MatcherView {
                looking_for: path.push(0usize),
                child_count_stack: stack.push(tree.children.len() as usize),
            }));
            lemma_expectation_walks_level(after_head, tree.children, path, 0);
            let done = MatcherView {
                looking_for: path.push(tree.children.len() as usize),
                child_count_stack: after_head.child_count_stack.drop_last().push(0usize),
            };
            assert(done.child_count_stack.drop_last() =~= stack);
            assert(done.looking_for.drop_last() =~= path);
            assert(done.unwind() == next.unwind());
        } else {
            assert(inner =~= Seq::empty());
            assert(after_head == next.unwind());
        }
    }
    lemma_advance_concat(matcher, head, inner);
    lemma_advance_concat(matcher, head + inner, later);
    if forest.len() > 1 {
        assert(next.unwind() == next);
        assert forall|i: int| 0 <= i < forest.drop_first().len() implies (
        #[trigger] forest.drop_first()[i]).children.len() <= usize::MAX && bounded(
            forest.drop_first()[i].children,
        ) by {
            assert(forest.drop_first()[i] == forest[i + 1]);
        }
        lemma_expectation_walks_level(next, forest.drop_first(), parent, first + 1);
        assert(next.child_count_stack.drop_last() =~= matcher.child_count_stack.drop_last());
    } else {
        assert(forest.drop_first() =~= Seq::empty());
        assert(later =~= Seq::empty());
    }
}

/// The expectation of a strict drain walks the tree of the reads in
/// pre-order: starting with the root, it asks for each envelope of the
/// tree at its turn, and when the last one has been delivered it expects
/// nothing more.
pub proof fn lemma_expectation_walks_tree<C: ClientState>(tree: ReadTree<C>)
    requires
        bounded(seq![tree]),
    ensures
        expected_in_turn(
            MatcherView::initial(),
            envelopes_of(seq![tree], Seq::<usize>::empty(), 0),
        ),
        advance_all(
            MatcherView::initial(),
            envelopes_of(seq![tree], Seq::<usize>::empty(), 0),
        ).is_none(),
{
    let start = MatcherView::initial();
    let root = Seq::<usize>::empty();
    assert(start.looking_for =~= root.push(0usize));
    lemma_expectation_walks_level(start, seq![tree], root, 0);
    let done = MatcherView {
        looking_for: root.push(1usize),
        child_count_stack: start.child_count_stack.drop_last().push(0usize),
    };
    let left = MatcherView {
        looking_for: Seq::<usize>::empty(),
        child_count_stack: Seq::<usize>::empty(),
    };
    assert(done.looking_for.drop_last() =~= Seq::<usize>::empty());
    assert(done.child_count_stack.drop_last() =~= Seq::<usize>::empty());
    assert(done.unwind() == left.unwind());
    assert(left.unwind() == left);
}


/// `path` lies at or below the child at `index` of the node at `parent`.
pub open spec fn at_or_below(path: Seq<usize>, parent: Seq<usize>, index: int) -> bool {
    &&& path.len() > parent.len()
    &&& path.subrange(0, parent.len() as int) == parent
    &&& path[parent.len() as int] == index
}

/// `path` lies at or below one of the `count` children from `first` on of
/// the node at `parent`.
pub open spec fn placed(path: Seq<usize>, parent: Seq<usize>, first: nat, count: nat) -> bool {
    exists|index: int| first <= index < first + count && #[trigger] at_or_below(path, parent, index)
}

/// The index paths of `envelopes` go strictly up.
pub open spec fn increasing<T>(envelopes: Seq<OrderedView<T>>) -> bool {
    forall|i: int, j: int|
        0 <= i < j < envelopes.len() ==> lex_less(
            (#[trigger] envelopes[i]).index_path,
            (#[trigger] envelopes[j]).index_path,
        )
}

/// The results that `envelopes` carry, in their order.
pub open spec fn payloads<T>(envelopes: Seq<OrderedView<T>>) -> Seq<T> {
    envelopes.map_values(|envelope: OrderedView<T>| envelope.value)
}

/// A path that lies at or below a child is the path of that child
/// followed by the rest of the way.
proof fn lemma_split_path(path: Seq<usize>, parent: Seq<usize>, index: usize)
    requires
        at_or_below(path, parent, index as int),
    ensures
        path == parent.push(index) + path.subrange(parent.len() as int + 1, path.len() as int),
{
    let below = path.subrange(parent.len() as int + 1, path.len() as int);
    assert forall|k: int| 0 <= k < path.len() implies path[k] == (parent.push(index) + below)[k] by {
        if k < parent.len() {
            assert(path.subrange(0, parent.len() as int)[k] == path[k]);
        }
    }
    assert(path =~= parent.push(index) + below);
}

/// The envelopes of a forest in pre-order carry the reads of the forest in
/// pre-order; each lies at or below one of the children that the forest
/// stands for; and their index paths go strictly up.
pub proof fn lemma_envelopes_in_order<C: ClientState>(
    forest: Seq<ReadTree<C>>,
    parent: Seq<usize>,
    first: nat,
)
    requires
        bounded(forest),
        first + forest.len() <= usize::MAX,
    ensures
        payloads(envelopes_of(forest, parent, first)) == reads_of(forest),
        increasing(envelopes_of(forest, parent, first)),
        forall|k: int|
            0 <= k < envelopes_of(forest, parent, first).len() ==> placed(
                (#[trigger] envelopes_of(forest, parent, first)[k]).index_path,
                parent,
                first,
                forest.len(),
            ),
    decreases forest,
{
    let all = envelopes_of(forest, parent, first);
    if forest.len() == 0 {
        assert(payloads(all) =~= reads_of(forest));
    } else {
        let tree = forest[0];
        let path = parent.push(first as usize);
        let head = OrderedView {
            value: tree.result,
            index_path: path,
            child_count: tree.children.len() as usize,
        };
        let inner = envelopes_of(tree.children, path, 0);
        let later = envelopes_of(forest.drop_first(), parent, first + 1);
        assert forall|i: int| 0 <= i < forest.drop_first().len() implies (
        #[trigger] forest.drop_first()[i]).children.len() <= usize::MAX && bounded(
            forest.drop_first()[i].children,
        ) by {
            assert(forest.drop_first()[i] == forest[i + 1]);
        }
        lemma_envelopes_in_order(tree.children, path, 0);
        lemma_envelopes_in_order(forest.drop_first(), parent, first + 1);
        assert(payloads(all) =~= reads_of(forest)) by {
            assert(payloads(all) =~= seq![tree.result] + payloads(inner) + payloads(later));
        }
        assert(at_or_below(path, parent, first as int)) by {
            assert(path.subrange(0, parent.len() as int) =~= parent);
        }
        // Where each envelope lies.
        assert forall|k: int| 0 <= k < all.len() implies placed(
            (#[trigger] all[k]).index_path,
            parent,
            first,
            forest.len(),
        ) by {
            if k == 0 {
                assert(all[k] == head);
                assert(at_or_below(all[k].index_path, parent, first as int));
            } else if k < 1 + inner.len() {
                assert(all[k] == inner[k - 1]);
                let p = inner[k - 1].index_path;
                assert(placed(p, path, 0, tree.children.len()));
                let j = choose|j: int|
                    0 <= j < 0 + tree.children.len() && #[trigger] at_or_below(p, path, j);
                assert(p.subrange(0, parent.len() as int) =~= p.subrange(
                    0,
                    path.len() as int,
                ).subrange(0, parent.len() as int));
                assert(p.subrange(0, path.len() as int)[parent.len() as int] == p[parent.len() as int]);
                assert(at_or_below(p, parent, first as int));
            } else {
                assert(all[k] == later[k - 1 - inner.len()]);
                assert(placed(all[k].index_path, parent, first + 1, forest.drop_first().len()));
                let index = choose|index: int|
                    first + 1 <= index < first + 1 + forest.drop_first().len()
                        && #[trigger] at_or_below(all[k].index_path, parent, index);
                assert(at_or_below(all[k].index_path, parent, index));
            }
        }
        // That the index paths go up.
        assert forall|i: int, j: int| 0 <= i < j < all.len() implies lex_less(
            (#[trigger] all[i]).index_path,
            (#[trigger] all[j]).index_path,
        ) by {
            let split = 1 + inner.len();
            if j < split {
                assert(all[j] == inner[j - 1]);
                if i == 0 {
                    assert(all[i] == head);
                    let q = inner[j - 1].index_path;
                    assert(placed(q, path, 0, tree.children.len()));
                    let index = choose|index: int|
                        0 <= index < 0 + tree.children.len() && #[trigger] at_or_below(
                            q,
                            path,
                            index,
                        );
                    lemma_split_path(q, path, index as usize);
                    lemma_ancestor_first(path, q.subrange(path.len() as int, q.len() as int));
                    assert(q =~= path + q.subrange(path.len() as int, q.len() as int));
                } else {
                    assert(all[i] == inner[i - 1]);
                }
            } else {
                assert(all[j] == later[j - split]);
                if i >= split {
                    assert(all[i] == later[i - split]);
                } else {
                    let p = all[i].index_path;
                    let q = all[j].index_path;
                    assert(placed(q, parent, first + 1, forest.drop_first().len()));
                    let qi = choose|index: int|
                        first + 1 <= index < first + 1 + forest.drop_first().len()
                            && #[trigger] at_or_below(q, parent, index);
                    assert(at_or_below(p, parent, first as int)) by {
                        if i == 0 {
                            assert(all[i] == head);
                        } else {
                            assert(all[i] == inner[i - 1]);
                            assert(placed(p, path, 0, tree.children.len()));
                            let index = choose|index: int|
                                0 <= index < 0 + tree.children.len() && #[trigger] at_or_below(
                                    p,
                                    path,
                                    index,
                                );
                            assert(p.subrange(0, parent.len() as int) =~= p.subrange(
                                0,
                                path.len() as int,
                            ).subrange(0, parent.len() as int));
                            assert(p.subrange(0, path.len() as int)[parent.len() as int]
                                == p[parent.len() as int]);
                        }
                    }
                    lemma_split_path(p, parent, first as usize);
                    lemma_split_path(q, parent, qi as usize);
                    lemma_siblings_in_order(
                        parent,
                        first as usize,
                        p.subrange(parent.len() as int + 1, p.len() as int),
                        qi as usize,
                        q.subrange(parent.len() as int + 1, q.len() as int),
                    );
                }
            }
        }
    }
}

/// What a strict drain delivers from the state `queue` on, when
/// `arrivals` come in, in that order: it delivers whenever the envelope it
/// expects is the front of what it holds, takes in the next arrival when
/// not, and ends when nothing arrives any more.
pub open spec fn drain<T>(queue: QueueIterView<T>, arrivals: Seq<OrderedView<T>>) -> Seq<
    OrderedView<T>,
>
    decreases 2 * arrivals.len() + queue.buffer.len(),
    via drain_decreases::<T>
{
    if queue.strict_ready() {
        seq![queue.front()] + drain(queue.after_strict(), arrivals)
    } else if arrivals.len() > 0 {
        drain(queue.receive(seq![arrivals[0]]), arrivals.drop_first())
    } else {
        Seq::empty()
    }
}

#[via_fn]
proof fn drain_decreases<T>(queue: QueueIterView<T>, arrivals: Seq<OrderedView<T>>) {
    if queue.strict_ready() {
        lemma_min_index_is_least(queue.buffer);
    }
}

/// A strict drain that expects the envelopes `rest`, one after the other,
/// and holds or is yet to receive exactly those, delivers them in the
/// order in which it expects them.
proof fn lemma_drain_delivers_expected<T>(
    queue: QueueIterView<T>,
    arrivals: Seq<OrderedView<T>>,
    rest: Seq<OrderedView<T>>,
)
    requires
        increasing(rest),
        expected_in_turn(queue.matcher, rest),
        advance_all(queue.matcher, rest).is_none(),
        queue.buffer.to_multiset().add(arrivals.to_multiset()) == rest.to_multiset(),
    ensures
        drain(queue, arrivals) == rest,
    decreases 2 * arrivals.len() + queue.buffer.len(),
{
    broadcast use vstd::seq_lib::group_to_multiset_ensures;

    assert(queue.buffer.to_multiset().len() == queue.buffer.len());
    assert(arrivals.to_multiset().len() == arrivals.len());
    assert(rest.to_multiset().len() == rest.len());
    if rest.len() == 0 {
        assert(queue.buffer.len() == 0);
        assert(arrivals.len() == 0);
        assert(drain(queue, arrivals) =~= rest);
    } else {
        let wanted = rest[0];
        let later = rest.drop_first();
        assert(later =~= rest.remove(0));
        assert forall|i: int, j: int| 0 <= i < j < later.len() implies lex_less(
            (#[trigger] later[i]).index_path,
            (#[trigger] later[j]).index_path,
        ) by {
            assert(later[i] == rest[i + 1] && later[j] == rest[j + 1]);
        }
        if queue.buffer.len() > 0 {
            lemma_min_index_is_least(queue.buffer);
            let front = queue.front();
            assert(queue.buffer.to_multiset().count(front) > 0);
            assert(rest.to_multiset().count(front) > 0);
            assert(rest.contains(front));
            let j = choose|j: int| 0 <= j < rest.len() && rest[j] == front;
            if queue.buffer.to_multiset().count(wanted) > 0 {
                // The wanted envelope is held, so it is the front.
                assert(queue.buffer.contains(wanted));
                let i = choose|i: int| 0 <= i < queue.buffer.len() && queue.buffer[i] == wanted;
                if j > 0 {
                    assert(lex_less(rest[0].index_path, rest[j].index_path));
                    assert(!lex_less(queue.buffer[i].index_path, front.index_path));
                    assert(false);
                }
                assert(front == wanted);
            } else if front.index_path == wanted.index_path {
                if j > 0 {
                    assert(lex_less(rest[0].index_path, rest[j].index_path));
                    lemma_lex_less_irreflexive(wanted.index_path);
                    assert(false);
                }
                assert(false);
            }
        }
        if queue.strict_ready() {
            let after = queue.after_strict();
            assert(queue.front() == wanted);
            assert(after.buffer.to_multiset() =~= queue.buffer.to_multiset().remove(wanted));
            assert(later.to_multiset() =~= rest.to_multiset().remove(wanted));
            assert(after.buffer.to_multiset().add(arrivals.to_multiset()) =~= later.to_multiset());
            lemma_drain_delivers_expected(after, arrivals, later);
            assert(drain(queue, arrivals) =~= rest);
        } else if arrivals.len() > 0 {
            let held = queue.receive(seq![arrivals[0]]);
            assert(held.buffer =~= queue.buffer.push(arrivals[0]));
            assert(arrivals.drop_first() =~= arrivals.remove(0));
            assert(held.buffer.to_multiset().add(arrivals.drop_first().to_multiset())
                =~= rest.to_multiset());
            lemma_drain_delivers_expected(held, arrivals.drop_first(), rest);
        } else {
            assert(queue.buffer.to_multiset() =~= rest.to_multiset());
            assert(rest.to_multiset().count(wanted) > 0);
            assert(false);
        }
    }
}

/// A strict drain delivers the results of a parallel walk in pre-order,
/// whatever the order in which they arrive: for any arrangement of the
/// envelopes of the tree of the reads, it delivers them as the pre-order
/// has them, so that the results come out in the order of `reads_of`.
pub proof fn lemma_strict_drain_ignores_arrival_order<C: ClientState>(
    tree: ReadTree<C>,
    arrivals: Seq<OrderedView<Result<ReadDir<C>, Error>>>,
)
    requires
        bounded(seq![tree]),
        arrivals.to_multiset() == envelopes_of(seq![tree], Seq::<usize>::empty(), 0).to_multiset(),
    ensures
        drain(
            QueueIterView {
                strict: true,
                buffer: Seq::<OrderedView<Result<ReadDir<C>, Error>>>::empty(),
                matcher: MatcherView::initial(),
            },
            arrivals,
        ) == envelopes_of(seq![tree], Seq::<usize>::empty(), 0),
        payloads(envelopes_of(seq![tree], Seq::<usize>::empty(), 0)) == reads_of(seq![tree]),
{
    broadcast use vstd::seq_lib::group_to_multiset_ensures;

    let all = envelopes_of(seq![tree], Seq::<usize>::empty(), 0);
    let queue = QueueIterView {
        strict: true,
        buffer: Seq::<OrderedView<Result<ReadDir<C>, Error>>>::empty(),
        matcher: MatcherView::initial(),
    };
    lemma_envelopes_in_order(seq![tree], Seq::<usize>::empty(), 0);
    lemma_expectation_walks_tree(tree);
    assert(queue.buffer.to_multiset().add(arrivals.to_multiset()) =~= all.to_multiset());
    lemma_drain_delivers_expected(queue, arrivals, all);
}


/// A parallel walk yields what a serial walk yields, whatever the order in
/// which the results of its reads arrive: the strict drain hands the
/// batches to the entry iterator in the order in which a serial walk reads
/// them, and so both walks yield the same entries in the same depth-first
/// pre-order.
pub proof fn lemma_parallel_walk_equals_serial<C: ClientState>(
    root_entry_results: Seq<Result<DirEntry<C>, Error>>,
    tree: ReadTree<C>,
    arrivals: Seq<OrderedView<Result<ReadDir<C>, Error>>>,
    min_depth: usize,
)
    requires
        bounded(seq![tree]),
        fits(root_entry_results, seq![tree]),
        arrivals.to_multiset() == envelopes_of(seq![tree], Seq::<usize>::empty(), 0).to_multiset(),
    ensures
        run(
            EntryIterView::initial(root_entry_results, min_depth, false),
            payloads(
                drain(
                    QueueIterView {
                        strict: true,
                        buffer: Seq::<OrderedView<Result<ReadDir<C>, Error>>>::empty(),
                        matcher: MatcherView::initial(),
                    },
                    arrivals,
                ),
            ),
        ) == yields(root_entry_results, seq![tree], min_depth),
        run(
            EntryIterView::initial(root_entry_results, min_depth, false),
            serial_reads(seq![tree]),
        ) == yields(root_entry_results, seq![tree], min_depth),
{
    lemma_strict_drain_ignores_arrival_order(tree, arrivals);
    lemma_serial_reads_in_preorder(seq![tree]);
    lemma_walk_yields_preorder(root_entry_results, seq![tree], min_depth);
}

/// Walking the same tree again yields the same: two parallel walks over
/// the same reads yield the same entries in the same order, however
/// differently the results of their reads arrive.
pub proof fn lemma_two_walks_yield_the_same<C: ClientState>(
    root_entry_results: Seq<Result<DirEntry<C>, Error>>,
    tree: ReadTree<C>,
    first: Seq<OrderedView<Result<ReadDir<C>, Error>>>,
    second: Seq<OrderedView<Result<ReadDir<C>, Error>>>,
    min_depth: usize,
)
    requires
        bounded(seq![tree]),
        fits(root_entry_results, seq![tree]),
        first.to_multiset() == envelopes_of(seq![tree], Seq::<usize>::empty(), 0).to_multiset(),
        second.to_multiset() == envelopes_of(seq![tree], Seq::<usize>::empty(), 0).to_multiset(),
    ensures
        run(
            EntryIterView::initial(root_entry_results, min_depth, false),
            payloads(
                drain(
                    QueueIterView {
                        strict: true,
                        buffer: Seq::<OrderedView<Result<ReadDir<C>, Error>>>::empty(),
                        matcher: MatcherView::initial(),
                    },
                    first,
                ),
            ),
        ) == run(
            EntryIterView::initial(root_entry_results, min_depth, false),
            payloads(
                drain(
                    QueueIterView {
                        strict: true,
                        buffer: Seq::<OrderedView<Result<ReadDir<C>, Error>>>::empty(),
                        matcher: MatcherView::initial(),
                    },
                    second,
                ),
            ),
        ),
{
    lemma_parallel_walk_equals_serial(root_entry_results, tree, first, min_depth);
    lemma_parallel_walk_equals_serial(root_entry_results, tree, second, min_depth);
}

/// No two results of a walk share an index path.
pub proof fn lemma_index_paths_distinct<C: ClientState>(tree: ReadTree<C>, i: int, j: int)
    requires
        bounded(seq![tree]),
        0 <= i < j < envelopes_of(seq![tree], Seq::<usize>::empty(), 0).len(),
    ensures
        envelopes_of(seq![tree], Seq::<usize>::empty(), 0)[i].index_path != envelopes_of(
            seq![tree],
            Seq::<usize>::empty(),
            0,
        )[j].index_path,
{
    let all = envelopes_of(seq![tree], Seq::<usize>::empty(), 0);
    lemma_envelopes_in_order(seq![tree], Seq::<usize>::empty(), 0);
    assert(lex_less(all[i].index_path, all[j].index_path));
    lemma_lex_less_irreflexive(all[i].index_path);
}

/// The state of a strict drain after it has gone through `arrivals` as
/// `drain` says: what it holds and what it expects then.
pub open spec fn after_drain<T>(queue: QueueIterView<T>, arrivals: Seq<OrderedView<T>>) -> QueueIterView<
    T,
>
    decreases 2 * arrivals.len() + queue.buffer.len(),
    via after_drain_decreases::<T>
{
    if queue.strict_ready() {
        after_drain(queue.after_strict(), arrivals)
    } else if arrivals.len() > 0 {
        after_drain(queue.receive(seq![arrivals[0]]), arrivals.drop_first())
    } else {
        queue
    }
}

#[via_fn]
proof fn after_drain_decreases<T>(queue: QueueIterView<T>, arrivals: Seq<OrderedView<T>>) {
    if queue.strict_ready() {
        lemma_min_index_is_least(queue.buffer);
    }
}

/// After a drain has gone through its arrivals, it expects what is left to
/// expect once all that it delivered has been delivered; it can deliver
/// nothing more; and it holds, of what it held and what arrived, all but
/// what it delivered.
pub proof fn lemma_after_drain<T>(queue: QueueIterView<T>, arrivals: Seq<OrderedView<T>>)
    ensures
        after_drain(queue, arrivals).matcher == advance_all(queue.matcher, drain(queue, arrivals)),
        after_drain(queue, arrivals).strict == queue.strict,
        !after_drain(queue, arrivals).strict_ready(),
        after_drain(queue, arrivals).buffer.len() + drain(queue, arrivals).len()
            == queue.buffer.len() + arrivals.len(),
    decreases 2 * arrivals.len() + queue.buffer.len(),
{
    if queue.strict_ready() {
        lemma_min_index_is_least(queue.buffer);
        lemma_after_drain(queue.after_strict(), arrivals);
        let rest = drain(queue.after_strict(), arrivals);
        let all = seq![queue.front()] + rest;
        assert(all.drop_first() =~= rest);
        assert(all[0] == queue.front());
    } else if arrivals.len() > 0 {
        lemma_after_drain(queue.receive(seq![arrivals[0]]), arrivals.drop_first());
    }
}

/// Delivers from arrivals that are at hand already: a strict drain that is
/// handed `arrivals`, in that order, without its channel. It delivers
/// whenever the envelope it expects is the front of what it holds and
/// takes in the next arrival when not; what it could not deliver stays
/// held.
pub fn drain_arrivals<T: Send>(queue: &mut OrderedQueueIter<T>, arrivals: Vec<Ordered<T>>) -> (delivered:
    Vec<Ordered<T>>)
    requires
        old(queue)@.wf(),
    ensures
        final(queue)@.wf(),
        final(queue).same_handles(old(queue)),
        buffer_view(delivered@) == drain(old(queue)@, buffer_view(arrivals@)),
        final(queue)@ == after_drain(old(queue)@, buffer_view(arrivals@)),
        final(queue)@.matcher == advance_all(old(queue)@.matcher, buffer_view(delivered@)),
{
    let mut left = reversed(arrivals);
    let mut delivered: Vec<Ordered<T>> = Vec::new();
    assert(buffer_view(delivered@) + drain(queue@, buffer_view(left@.reverse())) =~= drain(
        old(queue)@,
        buffer_view(arrivals@),
    ));
    proof {
        lemma_after_drain(old(queue)@, buffer_view(arrivals@));
    }
    loop
        invariant
            queue@.wf(),
            queue.same_handles(old(queue)),
            buffer_view(delivered@) + drain(queue@, buffer_view(left@.reverse())) == drain(
                old(queue)@,
                buffer_view(arrivals@),
            ),
            after_drain(queue@, buffer_view(left@.reverse())) == after_drain(
                old(queue)@,
                buffer_view(arrivals@),
            ),
            after_drain(old(queue)@, buffer_view(arrivals@)).matcher == advance_all(
                old(queue)@.matcher,
                drain(old(queue)@, buffer_view(arrivals@)),
            ),
        decreases 2 * left@.len() + queue@.buffer.len(),
    {
        let ghost before = queue@;
        let ghost unread = buffer_view(left@.reverse());
        let ghost so_far = buffer_view(delivered@);
        proof {
            if before.strict_ready() {
                lemma_min_index_is_least(before.buffer);
            }
        }
        match queue.take_strict() {
            Some(ordered) => {
                delivered.push(ordered);
                assert(buffer_view(delivered@) =~= so_far + seq![ordered@]);
                assert(buffer_view(delivered@) + drain(queue@, unread) =~= so_far + (seq![
                    before.front(),
                ] + drain(before.after_strict(), unread)));
            },
            None => {
                let ghost held = left@;
                match left.pop() {
                    Some(ordered) => {
                        assert(unread.len() > 0);
                        assert(unread[0] == ordered@);
                        assert(buffer_view(left@.reverse()) =~= unread.drop_first());
                        queue.offer(ordered);
                    },
                    None => {
                        assert(unread.len() == 0);
                        assert(drain(before, unread) =~= Seq::empty());
                        assert(so_far + Seq::empty() =~= so_far);
                        return delivered;
                    },
                }
            },
        }
    }
}

} // verus!
