use jwalk::ordered_queue::PushError;
use jwalk::strict_order::drain_arrivals;
use jwalk::{new_ordered_queue, IndexPath, Ordered, OrderedMatcher, QueueOrdering, TryNextError};
use std::sync::atomic::{AtomicBool, Ordering};
use std::sync::Arc;

fn envelope(value: &'static str, path: Vec<usize>, child_count: usize) -> Ordered<&'static str> {
    Ordered::new(value, IndexPath::new(path), child_count)
}

fn indices(path: &IndexPath) -> Vec<usize> {
    let mut copy = path.clone();
    let mut indices = Vec::new();
    while let Some(index) = copy.pop() {
        indices.insert(0, index);
    }
    indices
}

// The envelopes of the tree
//
//   root [0] ── a [0,0] ── c [0,0,0]
//            └─ b [0,1]
//
// in pre-order.
fn small_tree() -> Vec<Ordered<&'static str>> {
    vec![
        envelope("root", vec![0], 2),
        envelope("a", vec![0, 0], 1),
        envelope("c", vec![0, 0, 0], 0),
        envelope("b", vec![0, 1], 0),
    ]
}

#[test]
fn matcher_starts_at_the_root() {
    let matcher = OrderedMatcher::new();
    assert!(!matcher.is_none());
    assert_eq!(indices(matcher.looking_for()), vec![0]);
}

#[test]
fn matcher_walks_a_tree_in_pre_order() {
    let mut matcher = OrderedMatcher::new();
    let mut expected = Vec::new();
    for ordered in small_tree() {
        assert!(!matcher.is_none());
        expected.push(indices(matcher.looking_for()));
        matcher.advance_past(&ordered);
    }
    assert_eq!(expected, vec![vec![0], vec![0, 0], vec![0, 0, 0], vec![0, 1]]);
    assert!(matcher.is_none());
}

#[test]
fn matcher_ends_after_a_root_without_children() {
    let mut matcher = OrderedMatcher::new();
    matcher.advance_past(&envelope("root", vec![0], 0));
    assert!(matcher.is_none());
    assert!(indices(matcher.looking_for()).is_empty());
}

#[test]
fn matcher_moves_to_the_next_sibling_and_unwinds_several_levels() {
    let mut matcher = OrderedMatcher::new();
    matcher.advance_past(&envelope("root", vec![0], 2));
    matcher.advance_past(&envelope("a", vec![0, 0], 1));
    matcher.advance_past(&envelope("c", vec![0, 0, 0], 1));
    assert_eq!(indices(matcher.looking_for()), vec![0, 0, 0, 0]);
    // The last node of three levels: all of them are left at once.
    matcher.advance_past(&envelope("d", vec![0, 0, 0, 0], 0));
    assert_eq!(indices(matcher.looking_for()), vec![0, 1]);
    matcher.advance_past(&envelope("b", vec![0, 1], 0));
    assert!(matcher.is_none());
}

#[test]
fn strict_drain_delivers_in_pre_order_whatever_the_order_of_arrival() {
    let orders: Vec<Vec<usize>> =
        vec![vec![0, 1, 2, 3], vec![3, 2, 1, 0], vec![2, 0, 3, 1], vec![1, 3, 0, 2]];
    for order in orders {
        let stop = Arc::new(AtomicBool::new(false));
        let (queue, mut iter) = new_ordered_queue(stop, QueueOrdering::Strict);
        let mut tree: Vec<Option<Ordered<&'static str>>> =
            small_tree().into_iter().map(Some).collect();
        for position in order {
            assert!(queue.push(tree[position].take().unwrap()).is_ok());
        }
        let mut delivered = Vec::new();
        loop {
            match iter.try_next() {
                Ok(ordered) => delivered.push(ordered.value),
                Err(TryNextError::Empty) => panic!("all envelopes were sent"),
                Err(TryNextError::Disconnected) => break,
            }
        }
        assert_eq!(delivered, vec!["root", "a", "c", "b"]);
        assert_eq!(iter.buffered(), 0);
    }
}

#[test]
fn strict_drain_waits_for_the_expected_envelope() {
    let stop = Arc::new(AtomicBool::new(false));
    let (queue, mut iter) = new_ordered_queue(stop, QueueOrdering::Strict);
    assert!(iter.is_strict());
    assert!(queue.push(envelope("b", vec![0, 1], 0)).is_ok());
    assert!(queue.push(envelope("a", vec![0, 0], 0)).is_ok());
    // The root has not arrived: nothing is delivered, everything is kept.
    assert!(matches!(iter.try_next_strict(), Err(TryNextError::Empty)));
    assert_eq!(iter.buffered(), 2);
    assert!(queue.push(envelope("root", vec![0], 2)).is_ok());
    assert_eq!(iter.try_next_strict().ok().unwrap().value, "root");
    assert_eq!(iter.try_next_strict().ok().unwrap().value, "a");
    assert_eq!(iter.try_next_strict().ok().unwrap().value, "b");
    assert!(matches!(iter.try_next_strict(), Err(TryNextError::Disconnected)));
}

#[test]
fn strict_drain_ends_when_the_producers_are_gone() {
    let stop = Arc::new(AtomicBool::new(false));
    let (queue, mut iter) = new_ordered_queue(stop, QueueOrdering::Strict);
    assert!(queue.push(envelope("a", vec![0, 0], 0)).is_ok());
    drop(queue);
    // The root will never come.
    assert!(matches!(iter.try_next_strict(), Err(TryNextError::Disconnected)));
    assert_eq!(iter.buffered(), 1);
}

#[test]
fn relaxed_drain_hands_out_the_smallest_index_path() {
    let stop = Arc::new(AtomicBool::new(false));
    let (queue, mut iter) = new_ordered_queue(stop, QueueOrdering::Relaxed);
    assert!(!iter.is_strict());
    assert!(queue.push(envelope("b", vec![0, 1], 0)).is_ok());
    assert!(queue.push(envelope("c", vec![0, 0, 0], 0)).is_ok());
    assert!(queue.push(envelope("a", vec![0, 0], 0)).is_ok());
    assert_eq!(iter.try_next().ok().unwrap().value, "a");
    assert_eq!(iter.try_next().ok().unwrap().value, "c");
    assert_eq!(iter.try_next().ok().unwrap().value, "b");
    // Work is outstanding until it is reported complete.
    assert!(matches!(iter.try_next_relaxed(), Err(TryNextError::Empty)));
    queue.complete_item();
    queue.complete_item();
    queue.complete_item();
    assert!(matches!(iter.try_next_relaxed(), Err(TryNextError::Disconnected)));
}

#[test]
fn stop_ends_both_disciplines() {
    for ordering in [QueueOrdering::Relaxed, QueueOrdering::Strict] {
        let stop = Arc::new(AtomicBool::new(false));
        let (queue, mut iter) = new_ordered_queue(stop.clone(), ordering);
        assert!(queue.push(envelope("root", vec![0], 0)).is_ok());
        assert!(!stop.load(Ordering::SeqCst));
        queue.stop();
        assert!(stop.load(Ordering::SeqCst));
        assert!(matches!(iter.try_next(), Err(TryNextError::Disconnected)));
    }
}

#[test]
fn push_after_the_drain_is_gone_hands_the_envelope_back() {
    let stop = Arc::new(AtomicBool::new(false));
    let (queue, iter) = new_ordered_queue(stop, QueueOrdering::Strict);
    let producer = queue.clone();
    drop(iter);
    match producer.push(envelope("root", vec![0], 7)) {
        Err(PushError(ordered)) => {
            assert_eq!(ordered.value, "root");
            assert_eq!(ordered.child_count, 7);
            assert_eq!(indices(&ordered.index_path), vec![0]);
        }
        Ok(()) => panic!("nobody is left to receive"),
    }
}

#[test]
fn offer_and_take_work_without_the_channel() {
    let stop = Arc::new(AtomicBool::new(false));
    let (_queue, mut iter) = new_ordered_queue(stop, QueueOrdering::Strict);
    iter.offer(envelope("b", vec![0, 1], 0));
    iter.offer(envelope("a", vec![0, 0], 0));
    assert!(iter.take_strict().is_none());
    assert_eq!(iter.buffered(), 2);
    iter.offer(envelope("root", vec![0], 2));
    assert_eq!(iter.take_strict().unwrap().value, "root");
    // A relaxed take pays no heed to the expectation.
    iter.offer(envelope("early", vec![0, 0, 5], 0));
    assert_eq!(iter.take_relaxed().unwrap().value, "a");
    assert_eq!(iter.take_relaxed().unwrap().value, "early");
    assert_eq!(iter.take_relaxed().unwrap().value, "b");
    assert!(iter.take_relaxed().is_none());
}

#[test]
fn envelopes_with_one_index_path_come_out_in_the_order_of_arrival() {
    let stop = Arc::new(AtomicBool::new(false));
    let (_queue, mut iter) = new_ordered_queue(stop, QueueOrdering::Relaxed);
    iter.offer(envelope("first", vec![0], 0));
    iter.offer(envelope("second", vec![0], 0));
    assert_eq!(iter.take_relaxed().unwrap().value, "first");
    assert_eq!(iter.take_relaxed().unwrap().value, "second");
}

#[test]
fn drain_arrivals_puts_arrivals_into_pre_order() {
    let stop = Arc::new(AtomicBool::new(false));
    let (_queue, mut iter) = new_ordered_queue(stop, QueueOrdering::Strict);
    let mut arrivals = small_tree();
    arrivals.reverse();
    let delivered: Vec<&str> =
        drain_arrivals(&mut iter, arrivals).into_iter().map(|ordered| ordered.value).collect();
    assert_eq!(delivered, vec!["root", "a", "c", "b"]);
    assert_eq!(iter.buffered(), 0);
}

#[test]
fn drain_arrivals_keeps_what_it_cannot_deliver() {
    let stop = Arc::new(AtomicBool::new(false));
    let (_queue, mut iter) = new_ordered_queue(stop, QueueOrdering::Strict);
    let arrivals = vec![envelope("b", vec![0, 1], 0), envelope("root", vec![0], 2)];
    let delivered: Vec<&str> =
        drain_arrivals(&mut iter, arrivals).into_iter().map(|ordered| ordered.value).collect();
    // `a` at [0, 0] is missing, so `b` stays behind.
    assert_eq!(delivered, vec!["root"]);
    assert_eq!(iter.buffered(), 1);
}

#[test]
fn envelopes_are_equal_when_their_index_paths_are() {
    assert!(envelope("x", vec![0, 1], 3) == envelope("y", vec![0, 1], 0));
    assert!(envelope("x", vec![0, 1], 3) != envelope("x", vec![0, 2], 3));
}

#[test]
fn the_default_matcher_is_the_new_one() {
    let matcher = OrderedMatcher::default();
    assert!(!matcher.is_none());
    assert_eq!(indices(matcher.looking_for()), vec![0]);
}

#[test]
fn push_after_stop_hands_the_envelope_back() {
    for ordering in [QueueOrdering::Relaxed, QueueOrdering::Strict] {
        let stop = Arc::new(AtomicBool::new(false));
        let (queue, mut iter) = new_ordered_queue(stop.clone(), ordering);
        queue.stop();
        match queue.push(envelope("root", vec![0], 3)) {
            Err(PushError(ordered)) => {
                assert_eq!(ordered.value, "root");
                assert_eq!(ordered.child_count, 3);
                assert_eq!(indices(&ordered.index_path), vec![0]);
            }
            Ok(()) => panic!("the walk was asked to stop"),
        }
        // Nothing was sent and nothing was counted: with the flag cleared
        // again, the drain finds nothing held and nothing outstanding.
        stop.store(false, Ordering::SeqCst);
        assert!(matches!(iter.try_next_relaxed(), Err(TryNextError::Disconnected)));
        assert_eq!(iter.buffered(), 0);
        // The queue takes envelopes again.
        assert!(queue.push(envelope("root", vec![0], 0)).is_ok());
        assert_eq!(iter.try_next_relaxed().ok().unwrap().value, "root");
    }
}

#[test]
fn a_clone_of_the_producer_feeds_the_same_drain() {
    let stop = Arc::new(AtomicBool::new(false));
    let (queue, mut iter) = new_ordered_queue(stop.clone(), QueueOrdering::Relaxed);
    let other = queue.clone();
    assert!(other.push(envelope("b", vec![0, 1], 0)).is_ok());
    assert!(queue.push(envelope("a", vec![0, 0], 0)).is_ok());
    assert_eq!(iter.try_next_relaxed().ok().unwrap().value, "a");
    assert_eq!(iter.try_next_relaxed().ok().unwrap().value, "b");
    // Two units are outstanding until both are reported complete, by
    // either producer.
    assert!(matches!(iter.try_next_relaxed(), Err(TryNextError::Empty)));
    other.complete_item();
    assert!(matches!(iter.try_next_relaxed(), Err(TryNextError::Empty)));
    queue.complete_item();
    assert!(matches!(iter.try_next_relaxed(), Err(TryNextError::Disconnected)));
    // A stop through the clone is seen by all.
    other.stop();
    assert!(stop.load(Ordering::SeqCst));
    assert!(queue.push(envelope("late", vec![0, 2], 0)).is_err());
}

#[test]
fn a_strict_drain_whose_producers_are_gone_ends() {
    let stop = Arc::new(AtomicBool::new(false));
    let (queue, mut iter) = new_ordered_queue::<&'static str>(stop, QueueOrdering::Strict);
    // Something is expected, nothing is held, and nobody is left to send.
    drop(queue);
    assert!(matches!(iter.try_next_strict(), Err(TryNextError::Disconnected)));
    assert!(matches!(iter.try_next(), Err(TryNextError::Disconnected)));
    assert_eq!(iter.buffered(), 0);
}

#[test]
fn a_strict_drain_gives_way_when_its_channel_is_empty() {
    let stop = Arc::new(AtomicBool::new(false));
    let (queue, mut iter) = new_ordered_queue(stop, QueueOrdering::Strict);
    assert!(matches!(iter.try_next_strict(), Err(TryNextError::Empty)));
    // One attempt takes in what the channel holds and one message more.
    assert!(queue.push(envelope("c", vec![0, 0, 0], 0)).is_ok());
    assert!(queue.push(envelope("b", vec![0, 1], 0)).is_ok());
    assert!(matches!(iter.try_next_strict(), Err(TryNextError::Empty)));
    assert_eq!(iter.buffered(), 2);
    assert!(queue.push(envelope("root", vec![0], 2)).is_ok());
    assert_eq!(iter.try_next_strict().ok().unwrap().value, "root");
}

#[test]
fn drain_arrivals_leaves_the_expectation_behind_what_it_delivered() {
    let stop = Arc::new(AtomicBool::new(false));
    let (_queue, mut iter) = new_ordered_queue(stop, QueueOrdering::Strict);
    let delivered = drain_arrivals(
        &mut iter,
        vec![envelope("b", vec![0, 1], 0), envelope("root", vec![0], 2)],
    );
    assert_eq!(delivered.len(), 1);
    // The root is delivered; `a` at [0, 0] is expected next, `b` waits.
    assert_eq!(iter.buffered(), 1);
    assert!(iter.take_strict().is_none());
    iter.offer(envelope("a", vec![0, 0], 0));
    assert_eq!(iter.take_strict().unwrap().value, "a");
    assert_eq!(iter.take_strict().unwrap().value, "b");
    assert!(iter.take_strict().is_none());
    assert_eq!(iter.buffered(), 0);
}
