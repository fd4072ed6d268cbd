//! The entry iterator: from batches to one depth-first stream of entries.

use crate::client_state::ClientState;
use crate::dir_entry::DirEntry;
use crate::error::{Error, ErrorInnerView, ErrorView};
use crate::read_dir::ReadDir;
use crate::reverse::reversed;
use vstd::prelude::*;

verus! {

/// What one step of the entry iterator comes to.
pub enum Step<C: ClientState> {
    /// The next item of the stream.
    Yield(Result<DirEntry<C>, Error>),
    /// Nothing to hand out yet; step again.
    Continue,
    /// The iterator has met a directory that is to be descended into and
    /// needs the next batch before it can go on.
    NeedReadDir,
    /// The stream has ended.
    Done,
}

/// A `Step` as a mathematical value.
pub enum StepView<C: ClientState> {
    Yield(Result<DirEntry<C>, ErrorView>),
    Continue,
    NeedReadDir,
    Done,
}

impl<C: ClientState> View for Step<C> {
    type V = StepView<C>;

    open spec fn view(&self) -> StepView<C> {
        match self {
            Step::Yield(Ok(entry)) => StepView::Yield(Ok(*entry)),
            Step::Yield(Err(error)) => StepView::Yield(Err(error@)),
            Step::Continue => StepView::Continue,
            Step::NeedReadDir => StepView::NeedReadDir,
            Step::Done => StepView::Done,
        }
    }
}

/// The iterator that yields the entries of a walk in depth-first
/// pre-order.
///
/// It keeps, for every directory between the root and the place it has
/// reached, what is left of that directory's batch. It does not read
/// directories itself: when it meets an entry that is to be descended
/// into, it asks for the next batch, and the caller hands it in.
pub struct DirEntryIter<C: ClientState> {
    min_depth: usize,
    // Whether there is no source of batches because the pool was busy.
    busy: bool,
    // What is left of the batches, root first; each batch back to front.
    read_dir_results_stack: Vec<Vec<Result<DirEntry<C>, Error>>>,
    // The entry that waits for the batch of its children.
    pending: Option<DirEntry<C>>,
}

/// A `DirEntryIter` as a mathematical value: what is left of the batches,
/// root first, each in the order in which it is yielded, and the entry that
/// waits for the batch of its children.
pub struct EntryIterView<C: ClientState> {
    pub min_depth: usize,
    pub busy: bool,
    pub stack: Seq<Seq<Result<DirEntry<C>, Error>>>,
    pub pending: Option<DirEntry<C>>,
}

/// The error of a busy pool as a mathematical value.
pub open spec fn busy_view() -> ErrorView {
    ErrorView { depth: 0, inner: ErrorInnerView::ThreadpoolBusy }
}

impl<C: ClientState> EntryIterView<C> {
    /// The iterator before its first step: one batch, that of the root.
    pub open spec fn initial(
        root_entry_results: Seq<Result<DirEntry<C>, Error>>,
        min_depth: usize,
        busy: bool,
    ) -> EntryIterView<C> {
        EntryIterView { min_depth, busy, stack: seq![root_entry_results], pending: None }
    }

    /// One step: the state after it and what it comes to.
    ///
    /// An exhausted batch is left. An error is yielded. An entry that is to
    /// be descended into waits for its batch; if no batch can come because
    /// the pool was busy, the error of that is yielded in its place. Any
    /// other entry is yielded if it is deep enough and passed over if not.
    pub open spec fn step(self) -> (EntryIterView<C>, StepView<C>) {
        if self.pending.is_some() {
            (self, StepView::NeedReadDir)
        } else if self.stack.len() == 0 {
            (self, StepView::Done)
        } else if self.stack.last().len() == 0 {
            (EntryIterView { stack: self.stack.drop_last(), ..self }, StepView::Continue)
        } else {
            let rest = self.stack.drop_last().push(self.stack.last().drop_first());
            match self.stack.last()[0] {
                Err(error) => (EntryIterView { stack: rest, ..self }, StepView::Yield(Err(error@))),
                Ok(entry) => if entry.read_children_path.is_some() {
                    if self.busy {
                        (
                            EntryIterView { stack: rest, ..self },
                            StepView::Yield(Err(busy_view())),
                        )
                    } else {
                        (
                            EntryIterView { stack: rest, pending: Some(entry), ..self },
                            StepView::NeedReadDir,
                        )
                    }
                } else if entry.depth >= self.min_depth {
                    (EntryIterView { stack: rest, ..self }, StepView::Yield(Ok(entry)))
                } else {
                    (EntryIterView { stack: rest, ..self }, StepView::Continue)
                },
            }
        }
    }

    /// Handing in the batch that was asked for: the state after it and what
    /// it comes to.
    ///
    /// The batch of a read that succeeded is put on top, to be yielded
    /// next; the error of a read that failed is attached to the waiting
    /// entry. The waiting entry is then yielded if it is deep enough. A
    /// batch that was not asked for is dropped.
    pub open spec fn receive(self, read_dir_result: Result<ReadDir<C>, Error>) -> (
        EntryIterView<C>,
        StepView<C>,
    ) {
        match self.pending {
            None => (self, StepView::Continue),
            Some(entry) => {
                let after = match read_dir_result {
                    Ok(read_dir) => EntryIterView {
                        stack: self.stack.push(read_dir.results_list@),
                        pending: None,
                        ..self
                    },
                    Err(_) => EntryIterView { pending: None, ..self },
                };
                let entry = match read_dir_result {
                    Ok(_) => entry,
                    Err(error) => DirEntry { read_children_error: Some(error), ..entry },
                };
                if entry.depth >= self.min_depth {
                    (after, StepView::Yield(Ok(entry)))
                } else {
                    (after, StepView::Continue)
                }
            },
        }
    }
}

/// What is left of the batches, each in the order in which it is yielded.
pub open spec fn stack_view<C: ClientState>(stack: Seq<Vec<Result<DirEntry<C>, Error>>>) -> Seq<
    Seq<Result<DirEntry<C>, Error>>,
> {
    stack.map_values(|level: Vec<Result<DirEntry<C>, Error>>| level@.reverse())
}

impl<C: ClientState> View for DirEntryIter<C> {
    type V = EntryIterView<C>;

    closed spec fn view(&self) -> EntryIterView<C> {
        EntryIterView {
            min_depth: self.min_depth,
            busy: self.busy,
            stack: stack_view(self.read_dir_results_stack@),
            pending: self.pending,
        }
    }
}

impl<C: ClientState> DirEntryIter<C> {
    /// The iterator of a walk whose root gave `root_entry_results`. Entries
    /// above `min_depth` are passed over. With `busy` the walk has no
    /// source of batches, because its pool did not start it in time.
    pub fn new(root_entry_results: Vec<Result<DirEntry<C>, Error>>, min_depth: usize, busy: bool) -> (iter:
        DirEntryIter<C>)
        ensures
            iter@ == EntryIterView::initial(root_entry_results@, min_depth, busy),
    {
        let mut stack: Vec<Vec<Result<DirEntry<C>, Error>>> = Vec::new();
        let level = reversed(root_entry_results);
        stack.push(level);
        assert(stack_view(stack@) =~= seq![root_entry_results@]);
        DirEntryIter { min_depth, busy, read_dir_results_stack: stack, pending: None }
    }

    /// The iterator that yields `error` and nothing else.
    pub fn with_error(error: Error) -> (iter: DirEntryIter<C>)
        ensures
            iter@ == EntryIterView::initial(
                seq![Err::<DirEntry<C>, Error>(error)],
                0,
                false,
            ),
    {
        let mut root: Vec<Result<DirEntry<C>, Error>> = Vec::new();
        root.push(Err(error));
        assert(root@ =~= seq![Err::<DirEntry<C>, Error>(error)]);
        DirEntryIter::new(root, 0, false)
    }

    /// Whether the iterator waits for a batch.
    pub fn needs_read_dir(&self) -> (waiting: bool)
        ensures
            waiting == self@.pending.is_some(),
    {
        self.pending.is_some()
    }

    /// One step of the iterator.
    pub fn step(&mut self) -> (step: Step<C>)
        ensures
            (final(self)@, step@) == old(self)@.step(),
    {
        if self.pending.is_some() {
            return Step::NeedReadDir;
        }
        let ghost before = self.read_dir_results_stack@;
        let mut top = match self.read_dir_results_stack.pop() {
            None => {
                assert(stack_view(before) =~= Seq::empty());
                return Step::Done;
            },
            Some(top) => top,
        };
        let ghost below = self.read_dir_results_stack@;
        assert(stack_view(below) =~= stack_view(before).drop_last());
        assert(stack_view(before).last() == top@.reverse());
        let ghost level = top@;
        let result = match top.pop() {
            None => {
                return Step::Continue;
            },
            Some(result) => result,
        };
        assert(top@.reverse() =~= level.reverse().drop_first());
        assert(level.reverse()[0] == result);
        self.read_dir_results_stack.push(top);
        assert(stack_view(self.read_dir_results_stack@) =~= stack_view(before).drop_last().push(
            stack_view(before).last().drop_first(),
        ));
        match result {
            Err(error) => Step::Yield(Err(error)),
            Ok(entry) => {
                if entry.read_children_path.is_some() {
                    if self.busy {
                        Step::Yield(Err(Error::busy()))
                    } else {
                        self.pending = Some(entry);
                        Step::NeedReadDir
                    }
                } else if entry.depth >= self.min_depth {
                    Step::Yield(Ok(entry))
                } else {
                    Step::Continue
                }
            },
        }
    }

    /// Hands in the batch that the iterator asked for, or the error of
    /// reading it.
    pub fn push_next_read_dir_results(&mut self, read_dir_result: Result<ReadDir<C>, Error>) -> (step:
        Step<C>)
        ensures
            (final(self)@, step@) == old(self)@.receive(read_dir_result),
    {
        let mut entry = match self.pending.take() {
            None => {
                return Step::Continue;
            },
            Some(entry) => entry,
        };
        match read_dir_result {
            Ok(read_dir) => {
                let ghost before = self.read_dir_results_stack@;
                let ReadDir { read_dir_state: _, results_list } = read_dir;
                let level = reversed(results_list);
                self.read_dir_results_stack.push(level);
                assert(stack_view(self.read_dir_results_stack@) =~= stack_view(before).push(
                    results_list@,
                ));
            },
            Err(error) => {
                entry.read_children_error = Some(error);
            },
        }
        if entry.depth >= self.min_depth {
            Step::Yield(Ok(entry))
        } else {
            Step::Continue
        }
    }
}

} // verus!
