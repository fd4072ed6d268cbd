//! The order of a walk, as mathematics: what the entry iterator yields
//! when the batches reach it in pre-order, and that a serial walk reads in
//! that order.

use crate::client_state::ClientState;
use crate::dir_entry::DirEntry;
use crate::dir_entry_iter::{DirEntryIter, EntryIterView, Step, StepView};
use crate::error::{Error, ErrorView};
use crate::read_dir::{descended, ReadDir};
use crate::reverse::reversed;
use vstd::prelude::*;

verus! {

/// One read of a walk and all the reads below it: the result of reading a
/// directory and, for every entry of its batch that is descended into, in
/// the order of the batch, the tree of that entry.
pub struct ReadTree<C: ClientState> {
    pub result: Result<ReadDir<C>, Error>,
    pub children: Seq<ReadTree<C>>,
}

/// The trees of `forest` fit the batch `results`: there is one tree for
/// every entry that is descended into, and every tree fits its own batch. A
/// failed read has nothing below it.
pub open spec fn fits<C: ClientState>(
    results: Seq<Result<DirEntry<C>, Error>>,
    forest: Seq<ReadTree<C>>,
) -> bool
    decreases forest,
{
    &&& forest.len() == descended(results).len()
    &&& forall|i: int|
        0 <= i < forest.len() ==> match (#[trigger] forest[i]).result {
            Ok(read_dir) => fits(read_dir.results_list@, forest[i].children),
            Err(_) => forest[i].children.len() == 0,
        }
}

/// The results of the reads of `forest` in pre-order: every read before
/// the reads below it, and those before the reads of the next tree.
pub open spec fn reads_of<C: ClientState>(forest: Seq<ReadTree<C>>) -> Seq<
    Result<ReadDir<C>, Error>,
>
    decreases forest,
{
    if forest.len() == 0 {
        Seq::empty()
    } else {
        seq![forest[0].result] + reads_of(forest[0].children) + reads_of(forest.drop_first())
    }
}

/// The number of reads in `forest`.
pub open spec fn size_of<C: ClientState>(forest: Seq<ReadTree<C>>) -> nat
    decreases forest,
{
    if forest.len() == 0 {
        0
    } else {
        1 + size_of(forest[0].children) + size_of(forest.drop_first())
    }
}

/// An entry as the walk shows it: yielded if it is deep enough.
pub open spec fn shown<C: ClientState>(entry: DirEntry<C>, min_depth: usize) -> Seq<
    Result<DirEntry<C>, ErrorView>,
> {
    if entry.depth >= min_depth {
        seq![Ok(entry)]
    } else {
        Seq::empty()
    }
}

/// What a walk yields for the batch `results` with the reads `forest`
/// below it, in depth-first pre-order.
///
/// An error is yielded in its place. An entry that is not descended into is
/// shown. An entry that is descended into is shown, then comes all that
/// its own batch yields, then what the rest of this batch yields; if the
/// read below it failed, it is shown with the error of that read and
/// nothing comes below it. Where nothing was read for an entry that is to
/// be descended into, the walk ends.
pub open spec fn yields<C: ClientState>(
    results: Seq<Result<DirEntry<C>, Error>>,
    forest: Seq<ReadTree<C>>,
    min_depth: usize,
) -> Seq<Result<DirEntry<C>, ErrorView>>
    decreases forest, results.len(),
{
    if results.len() == 0 {
        Seq::empty()
    } else {
        match results[0] {
            Err(error) => seq![Err(error@)] + yields(results.drop_first(), forest, min_depth),
            Ok(entry) => if entry.read_children_path.is_none() {
                shown(entry, min_depth) + yields(results.drop_first(), forest, min_depth)
            } else if forest.len() == 0 {
                Seq::empty()
            } else {
                match forest[0].result {
                    Ok(read_dir) => shown(entry, min_depth) + yields(
                        read_dir.results_list@,
                        forest[0].children,
                        min_depth,
                    ) + yields(results.drop_first(), forest.drop_first(), min_depth),
                    Err(error) => shown(
                        DirEntry { read_children_error: Some(error), ..entry },
                        min_depth,
                    ) + yields(results.drop_first(), forest.drop_first(), min_depth),
                }
            },
        }
    }
}

/// The number of entries and errors in the batches of `stack`.
pub open spec fn entries_in<C: ClientState>(stack: Seq<Seq<Result<DirEntry<C>, Error>>>) -> nat
    decreases stack.len(),
{
    if stack.len() == 0 {
        0
    } else {
        entries_in(stack.drop_last()) + stack.last().len()
    }
}

/// The work that the reads `reads` bring: two steps for every entry and
/// one for the read itself.
pub open spec fn weight_of<C: ClientState>(reads: Seq<Result<ReadDir<C>, Error>>) -> nat
    decreases reads.len(),
{
    if reads.len() == 0 {
        0
    } else {
        weight_of(reads.drop_first()) + 1 + match reads[0] {
            Ok(read_dir) => 2 * read_dir.results_list@.len(),
            Err(_) => 0,
        }
    }
}

/// A bound on the steps that the entry iterator can still take.
pub open spec fn steps_left<C: ClientState>(
    iter: EntryIterView<C>,
    reads: Seq<Result<ReadDir<C>, Error>>,
) -> nat {
    2 * entries_in(iter.stack) + iter.stack.len() + weight_of(reads) + if iter.pending.is_some() {
        1nat
    } else {
        0nat
    }
}

/// What a step hands to the consumer.
pub open spec fn emitted<C: ClientState>(step: StepView<C>) -> Seq<Result<DirEntry<C>, ErrorView>> {
    match step {
        StepView::Yield(item) => seq![item],
        _ => Seq::empty(),
    }
}

/// What the entry iterator yields from the state `iter` on, when the
/// batches it asks for are `reads`, in that order: it steps until its
/// stream ends or it asks for a batch that is not there.
pub open spec fn run<C: ClientState>(
    iter: EntryIterView<C>,
    reads: Seq<Result<ReadDir<C>, Error>>,
) -> Seq<Result<DirEntry<C>, ErrorView>>
    decreases steps_left(iter, reads),
    via run_decreases::<C>
{
    if iter.pending.is_some() {
        if reads.len() == 0 {
            Seq::empty()
        } else {
            emitted(iter.receive(reads[0]).1) + run(iter.receive(reads[0]).0, reads.drop_first())
        }
    } else if iter.step().1 is Done {
        Seq::empty()
    } else {
        emitted(iter.step().1) + run(iter.step().0, reads)
    }
}

/// Leaving the top batch, or taking its first item, leaves fewer entries.
pub proof fn lemma_entries_in_top<C: ClientState>(stack: Seq<Seq<Result<DirEntry<C>, Error>>>)
    requires
        stack.len() > 0,
    ensures
        entries_in(stack.drop_last()) + stack.last().len() == entries_in(stack),
        stack.last().len() > 0 ==> entries_in(stack.drop_last().push(stack.last().drop_first()))
            + 1 == entries_in(stack),
        forall|level: Seq<Result<DirEntry<C>, Error>>| #[trigger]
            entries_in(stack.push(level)) == entries_in(stack) + level.len(),
{
    if stack.last().len() > 0 {
        let rest = stack.drop_last().push(stack.last().drop_first());
        assert(rest.drop_last() =~= stack.drop_last());
    }
    assert forall|level: Seq<Result<DirEntry<C>, Error>>| #[trigger]
        entries_in(stack.push(level)) == entries_in(stack) + level.len() by {
        assert(stack.push(level).drop_last() =~= stack);
    }
}

#[via_fn]
proof fn run_decreases<C: ClientState>(iter: EntryIterView<C>, reads: Seq<Result<ReadDir<C>, Error>>) {
    if iter.pending.is_some() {
        if reads.len() > 0 {
            let after = iter.receive(reads[0]).0;
            if iter.stack.len() > 0 {
                lemma_entries_in_top(iter.stack);
            }
            match reads[0] {
                Ok(read_dir) => {
                    assert(after.stack.drop_last() =~= iter.stack);
                },
                Err(_) => {},
            }
        }
    } else if !(iter.step().1 is Done) {
        lemma_entries_in_top(iter.stack);
    }
}


/// The entries of a batch that are descended into are its first item, if
/// that is such an entry, and those of the rest.
pub proof fn lemma_descended_front<C: ClientState>(results: Seq<Result<DirEntry<C>, Error>>)
    requires
        results.len() > 0,
    ensures
        descended(results) == (match results[0] {
            Ok(entry) => if entry.read_children_path.is_some() {
                seq![entry]
            } else {
                Seq::<DirEntry<C>>::empty()
            },
            Err(_) => Seq::<DirEntry<C>>::empty(),
        }) + descended(results.drop_first()),
    decreases results.len(),
{
    let front = match results[0] {
        Ok(entry) => if entry.read_children_path.is_some() {
            seq![entry]
        } else {
            Seq::<DirEntry<C>>::empty()
        },
        Err(_) => Seq::<DirEntry<C>>::empty(),
    };
    if results.len() == 1 {
        assert(results.drop_last() =~= Seq::empty());
        assert(results.drop_first() =~= Seq::empty());
        assert(descended(results.drop_last()) =~= Seq::empty());
        assert(descended(results) =~= front + descended(results.drop_first()));
    } else {
        lemma_descended_front(results.drop_last());
        assert(results.drop_last().drop_first() =~= results.drop_first().drop_last());
        assert(results.drop_last()[0] == results[0]);
        assert(results.drop_first().last() == results.last());
        assert(descended(results) =~= front + descended(results.drop_first()));
    }
}

/// Where a forest fits a batch, it fits what is left of the batch once the
/// first item is gone, without the tree of that item if it had one.
pub proof fn lemma_fits_rest<C: ClientState>(
    results: Seq<Result<DirEntry<C>, Error>>,
    forest: Seq<ReadTree<C>>,
)
    requires
        results.len() > 0,
        fits(results, forest),
    ensures
        match results[0] {
            Ok(entry) => if entry.read_children_path.is_some() {
                forest.len() > 0 && fits(results.drop_first(), forest.drop_first())
            } else {
                fits(results.drop_first(), forest)
            },
            Err(_) => fits(results.drop_first(), forest),
        },
{
    lemma_descended_front(results);
    let takes_tree = match results[0] {
        Ok(entry) => entry.read_children_path.is_some(),
        Err(_) => false,
    };
    if takes_tree {
        let rest = forest.drop_first();
        assert forall|i: int| 0 <= i < rest.len() implies match (#[trigger] rest[i]).result {
            Ok(read_dir) => fits(read_dir.results_list@, rest[i].children),
            Err(_) => rest[i].children.len() == 0,
        } by {
            assert(rest[i] == forest[i + 1]);
        }
    }
}

/// The entry iterator yields, for the batch on top of its stack and the
/// reads below that batch, what a depth-first walk yields for them, and
/// then goes on with the batches underneath and the reads that remain.
pub proof fn lemma_run_on_top<C: ClientState>(
    iter: EntryIterView<C>,
    forest: Seq<ReadTree<C>>,
    rest: Seq<Result<ReadDir<C>, Error>>,
)
    requires
        iter.pending.is_none(),
        !iter.busy,
        iter.stack.len() > 0,
        fits(iter.stack.last(), forest),
    ensures
        run(iter, reads_of(forest) + rest) == yields(iter.stack.last(), forest, iter.min_depth)
            + run(EntryIterView { stack: iter.stack.drop_last(), ..iter }, rest),
    decreases forest, iter.stack.last().len(),
{
    let top = iter.stack.last();
    let below = iter.stack.drop_last();
    let under = EntryIterView { stack: below, ..iter };
    let reads = reads_of(forest) + rest;
    if top.len() == 0 {
        assert(reads_of(forest) =~= Seq::empty());
        assert(reads =~= rest);
        assert(iter.step().0 == under);
        assert(run(iter, reads) =~= run(under, rest));
        assert(yields(top, forest, iter.min_depth) + run(under, rest) =~= run(under, rest));
    } else {
        lemma_fits_rest(top, forest);
        let next = EntryIterView { stack: below.push(top.drop_first()), ..iter };
        assert(next.stack.last() == top.drop_first());
        assert(next.stack.drop_last() =~= below);
        assert(EntryIterView { stack: next.stack.drop_last(), ..next } == under);
        match top[0] {
            Err(error) => {
                lemma_run_on_top(next, forest, rest);
                assert(iter.step().0 == next);
                assert(run(iter, reads) =~= seq![Err(error@)] + run(next, reads));
                assert(run(iter, reads) =~= yields(top, forest, iter.min_depth) + run(under, rest));
            },
            Ok(entry) => {
                if entry.read_children_path.is_none() {
                    lemma_run_on_top(next, forest, rest);
                    assert(iter.step().0 == next);
                    assert(run(iter, reads) =~= shown(entry, iter.min_depth) + run(next, reads));
                    assert(run(iter, reads) =~= yields(top, forest, iter.min_depth) + run(
                        under,
                        rest,
                    ));
                } else {
                    let waiting = EntryIterView { pending: Some(entry), ..next };
                    assert(iter.step().0 == waiting);
                    assert(iter.step().1 == StepView::<C>::NeedReadDir);
                    assert(run(iter, reads) =~= run(waiting, reads));
                    let tree = forest[0];
                    let after_tree = reads_of(forest.drop_first()) + rest;
                    assert(reads[0] == tree.result);
                    assert(reads.drop_first() =~= reads_of(tree.children) + after_tree);
                    assert(run(waiting, reads) =~= emitted(waiting.receive(reads[0]).1) + run(
                        waiting.receive(reads[0]).0,
                        reads.drop_first(),
                    ));
                    lemma_run_on_top(next, forest.drop_first(), rest);
                    match tree.result {
                        Ok(read_dir) => {
                            let inside = EntryIterView {
                                stack: next.stack.push(read_dir.results_list@),
                                ..next
                            };
                            assert(waiting.receive(reads[0]).0 == inside);
                            assert(emitted(waiting.receive(reads[0]).1) =~= shown(
                                entry,
                                iter.min_depth,
                            ));
                            assert(inside.stack.last() == read_dir.results_list@);
                            assert(inside.stack.drop_last() =~= next.stack);
                            assert(EntryIterView { stack: inside.stack.drop_last(), ..inside }
                                == next);
                            lemma_run_on_top(inside, tree.children, after_tree);
                            assert(run(iter, reads) =~= yields(top, forest, iter.min_depth) + run(
                                under,
                                rest,
                            ));
                        },
                        Err(error) => {
                            assert(waiting.receive(reads[0]).0 == next);
                            assert(emitted(waiting.receive(reads[0]).1) =~= shown(
                                DirEntry { read_children_error: Some(error), ..entry },
                                iter.min_depth,
                            ));
                            assert(reads_of(tree.children) =~= Seq::empty());
                            assert(reads.drop_first() =~= after_tree);
                            assert(run(iter, reads) =~= yields(top, forest, iter.min_depth) + run(
                                under,
                                rest,
                            ));
                        },
                    }
                }
            },
        }
    }
}

/// A walk yields its entries in depth-first pre-order: when the batches
/// reach the entry iterator in the pre-order of the reads, the iterator
/// yields the root batch and all below it as `yields` says, and then ends.
pub proof fn lemma_walk_yields_preorder<C: ClientState>(
    root_entry_results: Seq<Result<DirEntry<C>, Error>>,
    forest: Seq<ReadTree<C>>,
    min_depth: usize,
)
    requires
        fits(root_entry_results, forest),
    ensures
        run(EntryIterView::initial(root_entry_results, min_depth, false), reads_of(forest))
            == yields(root_entry_results, forest, min_depth),
{
    let iter = EntryIterView::initial(root_entry_results, min_depth, false);
    let none = Seq::<Result<ReadDir<C>, Error>>::empty();
    assert(iter.stack.last() == root_entry_results);
    lemma_run_on_top(iter, forest, none);
    assert(reads_of(forest) + none =~= reads_of(forest));
    let ended = EntryIterView { stack: iter.stack.drop_last(), ..iter };
    assert(ended.stack.len() == 0);
    assert(run(ended, none) =~= Seq::empty());
    assert(yields(root_entry_results, forest, min_depth) + run(ended, none) =~= yields(
        root_entry_results,
        forest,
        min_depth,
    ));
}

/// The batch of a directory follows the directory at once: where the
/// first entry of a batch is descended into and was read, the walk yields
/// that entry, then all that its own batch yields, and only then what the
/// rest of the batch yields.
pub proof fn lemma_batch_follows_directory<C: ClientState>(
    results: Seq<Result<DirEntry<C>, Error>>,
    forest: Seq<ReadTree<C>>,
    min_depth: usize,
)
    requires
        results.len() > 0,
        forest.len() > 0,
        results[0] matches Ok(entry) && entry.read_children_path.is_some(),
        forest[0].result is Ok,
    ensures
        yields(results, forest, min_depth) == shown(results[0]->Ok_0, min_depth) + yields(
            forest[0].result->Ok_0.results_list@,
            forest[0].children,
            min_depth,
        ) + yields(results.drop_first(), forest.drop_first(), min_depth),
{
}

/// No entry that a walk yields lies above the minimum depth.
pub proof fn lemma_yields_deep_enough<C: ClientState>(
    results: Seq<Result<DirEntry<C>, Error>>,
    forest: Seq<ReadTree<C>>,
    min_depth: usize,
)
    ensures
        forall|i: int|
            0 <= i < yields(results, forest, min_depth).len() ==> (#[trigger] yields(
                results,
                forest,
                min_depth,
            )[i] matches Ok(entry) ==> entry.depth >= min_depth),
    decreases forest, results.len(),
{
    if results.len() > 0 {
        match results[0] {
            Err(_) => {
                lemma_yields_deep_enough(results.drop_first(), forest, min_depth);
            },
            Ok(entry) => {
                if entry.read_children_path.is_none() {
                    lemma_yields_deep_enough(results.drop_first(), forest, min_depth);
                } else if forest.len() > 0 {
                    lemma_yields_deep_enough(results.drop_first(), forest.drop_first(), min_depth);
                    match forest[0].result {
                        Ok(read_dir) => {
                            lemma_yields_deep_enough(
                                read_dir.results_list@,
                                forest[0].children,
                                min_depth,
                            );
                        },
                        Err(_) => {},
                    }
                }
            },
        }
    }
}

/// The items that a walk with the minimum depth `min_depth` yields: every
/// error, and every entry that is deep enough.
pub open spec fn deep_enough<C: ClientState>(min_depth: usize) -> spec_fn(
    Result<DirEntry<C>, ErrorView>,
) -> bool {
    |item: Result<DirEntry<C>, ErrorView>|
        match item {
            Ok(entry) => entry.depth >= min_depth,
            Err(_) => true,
        }
}

/// A sequence of one item, filtered, is that item or nothing.
proof fn lemma_filter_one<A>(item: A, keep: spec_fn(A) -> bool)
    ensures
        seq![item].filter(keep) == if keep(item) {
            seq![item]
        } else {
            Seq::<A>::empty()
        },
{
    reveal_with_fuel(Seq::filter, 2);
    assert(seq![item].drop_last() =~= Seq::<A>::empty());
    assert(seq![item].filter(keep) =~= if keep(item) {
        seq![item]
    } else {
        Seq::<A>::empty()
    });
}

/// The minimum depth only filters: a walk yields with a minimum depth what
/// it yields without one, less the entries above that depth. Every
/// directory is descended into all the same, and every entry that is deep
/// enough is yielded.
pub proof fn lemma_min_depth_only_filters<C: ClientState>(
    results: Seq<Result<DirEntry<C>, Error>>,
    forest: Seq<ReadTree<C>>,
    min_depth: usize,
)
    ensures
        yields(results, forest, min_depth) == yields(results, forest, 0).filter(
            deep_enough(min_depth),
        ),
    decreases forest, results.len(),
{
    let keep = deep_enough::<C>(min_depth);
    let all = yields(results, forest, 0);
    if results.len() == 0 {
        reveal_with_fuel(Seq::filter, 1);
        assert(all.filter(keep) =~= Seq::empty());
    } else {
        match results[0] {
            Err(error) => {
                let head = seq![Err::<DirEntry<C>, ErrorView>(error@)];
                lemma_min_depth_only_filters(results.drop_first(), forest, min_depth);
                lemma_filter_one(Err::<DirEntry<C>, ErrorView>(error@), keep);
                Seq::filter_distributes_over_add(head, yields(results.drop_first(), forest, 0), keep);
            },
            Ok(entry) => {
                if entry.read_children_path.is_none() {
                    lemma_min_depth_only_filters(results.drop_first(), forest, min_depth);
                    lemma_filter_one(Ok::<DirEntry<C>, ErrorView>(entry), keep);
                    Seq::filter_distributes_over_add(
                        seq![Ok::<DirEntry<C>, ErrorView>(entry)],
                        yields(results.drop_first(), forest, 0),
                        keep,
                    );
                } else if forest.len() == 0 {
                    reveal_with_fuel(Seq::filter, 1);
                    assert(all.filter(keep) =~= Seq::empty());
                } else {
                    let later = yields(results.drop_first(), forest.drop_first(), 0);
                    lemma_min_depth_only_filters(results.drop_first(), forest.drop_first(), min_depth);
                    match forest[0].result {
                        Ok(read_dir) => {
                            let below = yields(read_dir.results_list@, forest[0].children, 0);
                            lemma_min_depth_only_filters(
                                read_dir.results_list@,
                                forest[0].children,
                                min_depth,
                            );
                            lemma_filter_one(Ok::<DirEntry<C>, ErrorView>(entry), keep);
                            Seq::filter_distributes_over_add(
                                seq![Ok::<DirEntry<C>, ErrorView>(entry)],
                                below,
                                keep,
                            );
                            Seq::filter_distributes_over_add(
                                seq![Ok::<DirEntry<C>, ErrorView>(entry)] + below,
                                later,
                                keep,
                            );
                        },
                        Err(error) => {
                            let marked = DirEntry { read_children_error: Some(error), ..entry };
                            lemma_filter_one(Ok::<DirEntry<C>, ErrorView>(marked), keep);
                            Seq::filter_distributes_over_add(
                                seq![Ok::<DirEntry<C>, ErrorView>(marked)],
                                later,
                                keep,
                            );
                        },
                    }
                }
            },
        }
    }
}

/// A step of the entry iterator never yields an entry above the minimum
/// depth, and neither does handing in a batch.
pub proof fn lemma_step_yields_deep_enough<C: ClientState>(
    iter: EntryIterView<C>,
    read_dir_result: Result<ReadDir<C>, Error>,
)
    ensures
        iter.step().1 matches StepView::Yield(Ok(entry)) ==> entry.depth >= iter.min_depth,
        iter.receive(read_dir_result).1 matches StepView::Yield(Ok(entry)) ==> entry.depth
            >= iter.min_depth,
{
}

/// The reads of two forests one after the other are the reads of the first
/// and then those of the second.
pub proof fn lemma_reads_of_concat<C: ClientState>(a: Seq<ReadTree<C>>, b: Seq<ReadTree<C>>)
    ensures
        reads_of(a + b) == reads_of(a) + reads_of(b),
        size_of(a + b) == size_of(a) + size_of(b),
    decreases a.len(),
{
    if a.len() == 0 {
        assert(a + b =~= b);
        assert(reads_of(a) + reads_of(b) =~= reads_of(b));
    } else {
        lemma_reads_of_concat(a.drop_first(), b);
        assert((a + b).drop_first() =~= a.drop_first() + b);
        assert((a + b)[0] == a[0]);
        assert(reads_of(a + b) =~= reads_of(a) + reads_of(b));
    }
}

/// The order in which a serial walk reads: always the first request that
/// is unread, whose own requests are then put in front of all others.
/// `unread` holds, for every unread request, the tree of its read.
pub open spec fn serial_reads<C: ClientState>(unread: Seq<ReadTree<C>>) -> Seq<
    Result<ReadDir<C>, Error>,
>
    decreases size_of(unread),
    via serial_reads_decreases::<C>
{
    if unread.len() == 0 {
        Seq::empty()
    } else {
        seq![unread[0].result] + serial_reads(unread[0].children + unread.drop_first())
    }
}

#[via_fn]
proof fn serial_reads_decreases<C: ClientState>(unread: Seq<ReadTree<C>>) {
    if unread.len() > 0 {
        lemma_reads_of_concat(unread[0].children, unread.drop_first());
    }
}

/// A serial walk reads in pre-order: taking the first unread request and
/// putting its own requests in front gives the reads in the order in which
/// the entry iterator asks for them.
pub proof fn lemma_serial_reads_in_preorder<C: ClientState>(unread: Seq<ReadTree<C>>)
    ensures
        serial_reads(unread) == reads_of(unread),
    decreases size_of(unread),
{
    if unread.len() > 0 {
        lemma_reads_of_concat(unread[0].children, unread.drop_first());
        lemma_serial_reads_in_preorder(unread[0].children + unread.drop_first());
        assert(serial_reads(unread) =~= reads_of(unread));
    }
}


/// Every step that `run` takes leaves fewer steps to take.
pub proof fn lemma_steps_left_decreases<C: ClientState>(
    iter: EntryIterView<C>,
    reads: Seq<Result<ReadDir<C>, Error>>,
)
    ensures
        iter.pending.is_some() && reads.len() > 0 ==> steps_left(
            iter.receive(reads[0]).0,
            reads.drop_first(),
        ) < steps_left(iter, reads),
        iter.pending.is_none() && !(iter.step().1 is Done) ==> steps_left(iter.step().0, reads)
            < steps_left(iter, reads),
{
    if iter.pending.is_some() {
        if reads.len() > 0 {
            let after = iter.receive(reads[0]).0;
            if iter.stack.len() > 0 {
                lemma_entries_in_top(iter.stack);
            }
            match reads[0] {
                Ok(read_dir) => {
                    assert(after.stack.drop_last() =~= iter.stack);
                },
                Err(_) => {},
            }
        }
    } else if !(iter.step().1 is Done) {
        lemma_entries_in_top(iter.stack);
    }
}

/// What the consumer of a walk sees of an item: the entry itself, or the
/// error as a mathematical value.
pub open spec fn item_view<C: ClientState>(item: Result<DirEntry<C>, Error>) -> Result<
    DirEntry<C>,
    ErrorView,
> {
    match item {
        Ok(entry) => Ok(entry),
        Err(error) => Err(error@),
    }
}

/// What the consumer of a walk sees of its items.
pub open spec fn items_view<C: ClientState>(items: Seq<Result<DirEntry<C>, Error>>) -> Seq<
    Result<DirEntry<C>, ErrorView>,
> {
    items.map_values(|item: Result<DirEntry<C>, Error>| item_view(item))
}

/// The items of a walk whose batches are at hand already: runs the entry
/// iterator from the batch of the root on, handing it the batches of
/// `reads` in their order whenever it asks for one, until its stream ends
/// or it asks for a batch that is not there.
pub fn walk_batches<C: ClientState>(
    root_entry_results: Vec<Result<DirEntry<C>, Error>>,
    min_depth: usize,
    reads: Vec<Result<ReadDir<C>, Error>>,
) -> (items: Vec<Result<DirEntry<C>, Error>>)
    ensures
        items_view(items@) == run(
            EntryIterView::initial(root_entry_results@, min_depth, false),
            reads@,
        ),
{
    let mut iter = DirEntryIter::new(root_entry_results, min_depth, false);
    let mut left = reversed(reads);
    let mut items: Vec<Result<DirEntry<C>, Error>> = Vec::new();
    let ghost start = iter@;
    assert(items_view(items@) + run(iter@, left@.reverse()) =~= run(start, reads@));
    loop
        invariant
            start == EntryIterView::initial(root_entry_results@, min_depth, false),
            items_view(items@) + run(iter@, left@.reverse()) == run(start, reads@),
        decreases steps_left(iter@, left@.reverse()),
    {
        let ghost before = iter@;
        let ghost unread = left@.reverse();
        let ghost shown_so_far = items_view(items@);
        proof {
            lemma_steps_left_decreases(before, unread);
        }
        let step = if iter.needs_read_dir() {
            match left.pop() {
                None => {
                    assert(unread.len() == 0);
                    assert(run(before, unread) =~= Seq::empty());
                    assert(items_view(items@) + Seq::empty() =~= items_view(items@));
                    return items;
                },
                Some(read) => {
                    assert(left@.reverse() =~= unread.drop_first());
                    assert(unread[0] == read);
                    iter.push_next_read_dir_results(read)
                },
            }
        } else {
            iter.step()
        };
        assert(run(before, unread) == emitted(step@) + run(iter@, left@.reverse()) || step is Done);
        match step {
            Step::Yield(item) => {
                items.push(item);
                assert(items_view(items@) =~= shown_so_far + seq![item_view(item)]);
                assert(items_view(items@) + run(iter@, left@.reverse()) =~= shown_so_far + (emitted(
                    step@,
                ) + run(iter@, left@.reverse())));
            },
            Step::Done => {
                assert(run(before, unread) =~= Seq::empty());
                assert(items_view(items@) + Seq::empty() =~= items_view(items@));
                return items;
            },
            _ => {
                assert(emitted(step@) + run(iter@, left@.reverse()) =~= run(iter@, left@.reverse()));
            },
        }
    }
}

} // verus!
