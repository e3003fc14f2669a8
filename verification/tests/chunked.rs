use co_queue::blocking::BlockingQueue;
use co_queue::channel::{QueueError, QueueState};
use co_queue::co_model::{LenStage, PopOp, PopStage};
use co_queue::co_queue::{length_between, CoQueue};
use co_queue::interleave::Interleaved;
use co_queue::stream::{stops, IterWaker, Polled};

#[test]
fn values_come_out_in_order_across_chunks() {
    let mut queue = CoQueue::new();
    assert!(queue.is_empty());
    assert!(queue.has_room_for(1000) && !queue.has_room_for(usize::MAX / 4));
    assert_eq!(queue.pop(), Err(()));
    for i in 0..100u32 {
        queue.push(i);
        assert_eq!(queue.len(), i as usize + 1);
    }
    for i in 0..100u32 {
        assert_eq!(queue.pop(), Ok(i));
    }
    assert!(queue.is_empty());
    assert_eq!(queue.pop(), Err(()));
}

#[test]
fn lengths_do_not_count_end_marks() {
    let mut queue = CoQueue::new();
    for i in 0..70u32 {
        queue.push(i);
        if i >= 3 {
            assert_eq!(queue.pop(), Ok(i - 3));
            assert_eq!(queue.len(), 3);
        }
    }
    assert_eq!(length_between(2 * 31, 0), 31);
    assert_eq!(length_between(2 * 32, 0), 31);
    assert_eq!(length_between(2 * 33, 2 * 31), 1);
    assert_eq!(length_between(2 * 31, 2 * 31), 0);
    assert_eq!(length_between(2 * 63, 2 * 31), 31);
}

#[test]
fn what_is_left_is_handed_out_in_order() {
    let mut queue = CoQueue::new();
    for i in 0..64u32 {
        queue.push(i);
    }
    for _ in 0..5 {
        assert!(queue.pop().is_ok());
    }
    assert_eq!(queue.into_remaining(), (5..64).collect::<Vec<u32>>());
    assert!(CoQueue::<u8>::new().into_remaining().is_empty());
}

#[test]
fn yielding_says_what_there_is() {
    let mut queue = CoQueue::new();
    assert!(matches!(queue.yield_value(), QueueState::Spin));
    queue.push(4u8);
    assert!(matches!(queue.yield_value(), QueueState::Yield(4)));
    assert!(matches!(queue.yield_value(), QueueState::Spin));
}

#[test]
fn polling_goes_by_the_signal_first() {
    let mut queue = CoQueue::new();
    queue.push(1u8);
    queue.push(2u8);
    queue.push(3u8);
    assert!(matches!(queue.poll_on(Some(QueueState::Terminate)), Polled::Ready(None)));
    assert!(matches!(
        queue.poll_on(Some(QueueState::Error(QueueError::Error))),
        Polled::Failed(QueueError::Error)
    ));
    assert_eq!(queue.len(), 3);
    assert!(matches!(queue.poll_on(None), Polled::Ready(Some(1))));
    assert!(matches!(queue.poll_on(Some(QueueState::Spin)), Polled::Ready(Some(2))));
    assert!(matches!(queue.poll_on(Some(QueueState::Yield(9))), Polled::Ready(Some(3))));
    assert!(matches!(queue.poll_on(None), Polled::Pending));
}

#[test]
fn a_round_pokes_at_the_limit() {
    let mut queue: CoQueue<u8> = CoQueue::new();
    assert!(queue.round_on(19, None, None).is_none());
    assert!(matches!(queue.round_on(20, None, None), Some(Ok(Some(IterWaker::Poke)))));
    assert!(matches!(queue.round_on(0, Some(QueueState::Terminate), None), Some(Ok(None))));
    assert!(matches!(queue.round_on(0, None, Some(QueueState::Terminate)), Some(Ok(None))));
    assert!(matches!(
        queue.round_on(0, Some(QueueState::Error(QueueError::Error)), None),
        Some(Err(QueueError::Error))
    ));
    queue.push(6);
    assert!(matches!(queue.round_on(0, None, None), Some(Ok(Some(IterWaker::Item(6))))));
    assert!(stops(&Some(QueueState::<u8>::Terminate)));
    assert!(!stops(&Some(QueueState::Yield(1u8))));
    assert!(!stops::<u8>(&None));
}

#[test]
fn an_iterator_listens_to_the_channel() {
    let mut queue: CoQueue<u8> = CoQueue::new();
    let sender = queue.sender();
    queue.push(7);
    {
        let mut iter = queue.into_iter();
        assert!(matches!(iter.next(), Ok(Some(IterWaker::Item(7)))));
        assert!(matches!(iter.next(), Ok(Some(IterWaker::Poke))));
        sender.lock().unwrap().send(QueueState::Error(QueueError::Error)).unwrap();
        assert_eq!(iter.next().unwrap_err().describe(), "Error");
        sender.lock().unwrap().send(QueueState::Terminate).unwrap();
        assert!(matches!(iter.next(), Ok(None)));
        assert!(matches!(iter.next(), Ok(Some(IterWaker::Poke))));
    }
    sender.lock().unwrap().send(QueueState::Terminate).unwrap();
    assert!(matches!(queue.poll_next(), Polled::Ready(None)));
    assert!(matches!(queue.poll_next(), Polled::Pending));
}

#[test]
fn a_blocking_queue_has_a_channel_of_its_own() {
    let mut queue: BlockingQueue<u8> = BlockingQueue::new();
    let sender = queue.sender();
    assert!(queue.is_empty());
    queue.push(1);
    queue.push(2);
    assert_eq!(queue.len(), 2);
    assert_eq!(queue.pop(), Ok(1));
    {
        let mut iter = queue.iter();
        assert!(matches!(iter.next(), Ok(Some(IterWaker::Item(2)))));
        assert!(matches!(iter.next(), Ok(Some(IterWaker::Poke))));
        sender.lock().unwrap().send(QueueState::Terminate).unwrap();
        assert!(matches!(iter.next(), Ok(None)));
    }
    assert_eq!(queue.pop(), Err(()));
}

#[test]
fn interleaved_pushes_and_pops_lose_and_double_nothing() {
    let mut run = Interleaved::new(CoQueue::new());
    let pushes: Vec<usize> = (0..40u32).map(|i| run.begin_push(i)).collect();
    let pops: Vec<usize> = (0..40).map(|_| run.begin_pop()).collect();
    let mut turn = 0usize;
    while !pushes.iter().all(|id| run.push_done(*id)) {
        for id in &pushes {
            turn += 1;
            run.step_push(*id, turn % 7 == 3);
        }
    }
    while !pops.iter().all(|id| run.pop_result(*id).is_some()) {
        for id in &pops {
            turn += 1;
            run.step_pop(*id, turn % 9 == 2);
        }
    }
    let mut got: Vec<u32> = pops
        .iter()
        .map(|id| *run.pop_result(*id).unwrap().unwrap())
        .collect();
    got.sort();
    assert_eq!(got, (0..40).collect::<Vec<u32>>());
    assert!(run.into_queue().is_empty());
}

#[test]
fn a_pop_waits_for_the_push_that_has_its_place() {
    let mut run = Interleaved::new(CoQueue::new());
    let first = run.begin_push('a');
    let second = run.begin_push('b');
    while !run.push_done(first) {
        run.step_push(first, false);
    }
    let pop = run.begin_pop();
    for _ in 0..3 {
        run.step_pop(pop, false);
    }
    while !run.push_done(second) {
        run.step_push(second, false);
    }
    while run.pop_result(pop).is_none() {
        run.step_pop(pop, false);
    }
    assert_eq!(run.pop_result(pop), Some(Ok(&'a')));
    let mut queue = run.into_queue();
    assert_eq!(queue.pop(), Ok('b'));
}

#[test]
fn lengths_count_pushes_less_pops() {
    let mut queue = CoQueue::new();
    for i in 0..31u32 {
        queue.push(i);
    }
    assert_eq!(queue.len(), 31);
    for i in 31..100u32 {
        queue.push(i);
    }
    for i in 0..40u32 {
        assert_eq!(queue.pop(), Ok(i));
    }
    assert_eq!(queue.len(), 60);
    queue.push(100);
    for i in 40..101u32 {
        assert!(!queue.is_empty());
        assert_eq!(queue.pop(), Ok(i));
    }
    assert_eq!(queue.pop(), Err(()));
    assert!(queue.is_empty());
}

fn finish(queue: &mut CoQueue<u32>, op: &mut PopOp<u32>) {
    while op.stage != PopStage::Done {
        queue.pop_step(op, false);
    }
}

#[test]
fn the_pop_of_the_last_slot_frees_a_chunk_that_is_read() {
    let mut queue = CoQueue::new();
    for i in 0..40u32 {
        queue.push(i);
    }
    for i in 0..35u32 {
        let mut op = CoQueue::start_pop();
        finish(&mut queue, &mut op);
        assert_eq!(op.item, Some(i));
        assert_eq!(op.ended, i == 30);
    }
}

#[test]
fn the_last_reader_frees_a_chunk() {
    let mut queue = CoQueue::new();
    for i in 0..40u32 {
        queue.push(i);
    }
    let mut slow: Vec<PopOp<u32>> = Vec::new();
    for i in 0..33u32 {
        let mut op = CoQueue::start_pop();
        if i == 5 || i == 20 {
            while op.stage != PopStage::MarkRead {
                queue.pop_step(&mut op, false);
            }
            slow.push(op);
        } else {
            finish(&mut queue, &mut op);
            assert_eq!(op.item, Some(i));
            assert!(!op.ended);
        }
    }
    finish(&mut queue, &mut slow[0]);
    assert_eq!(slow[0].item, Some(5));
    assert!(!slow[0].ended);
    finish(&mut queue, &mut slow[1]);
    assert_eq!(slow[1].item, Some(20));
    assert!(slow[1].ended);
    assert_eq!(queue.pop(), Ok(33));
}

#[test]
fn a_count_starts_over_when_a_push_comes_in_between() {
    let mut run = Interleaved::new(CoQueue::new());
    let mut op = CoQueue::<u8>::start_len();
    run.len_step(&mut op);
    let push = run.begin_push(1u8);
    while !run.push_done(push) {
        run.step_push(push, false);
    }
    run.len_step(&mut op);
    run.len_step(&mut op);
    assert_eq!(op.stage, LenStage::LoadTail);
    run.len_step(&mut op);
    run.len_step(&mut op);
    let pop = run.begin_pop();
    while run.pop_result(pop).is_none() {
        run.step_pop(pop, false);
    }
    run.len_step(&mut op);
    assert_eq!(op.stage, LenStage::Done);
    assert_eq!(op.count, 1);
}

#[test]
fn a_signal_that_ends_an_iteration_leaves_the_values() {
    let mut queue: BlockingQueue<u8> = BlockingQueue::new();
    let sender = queue.sender();
    queue.push(1);
    queue.push(2);
    sender.lock().unwrap().send(QueueState::Terminate).unwrap();
    assert!(matches!(queue.iter().next(), Ok(None)));
    assert_eq!(queue.len(), 2);
    sender.lock().unwrap().send(QueueState::Error(QueueError::Error)).unwrap();
    assert!(queue.iter().next().is_err());
    assert_eq!(queue.len(), 2);
    sender.lock().unwrap().send(QueueState::Spin).unwrap();
    assert!(matches!(queue.iter().next(), Ok(Some(IterWaker::Item(1)))));
    sender.lock().unwrap().send(QueueState::Yield(9)).unwrap();
    assert!(matches!(queue.iter().next(), Ok(Some(IterWaker::Item(2)))));
}

#[test]
fn no_signal_is_passed_over_unheard() {
    let mut queue: CoQueue<u8> = CoQueue::new();
    queue.push(1);
    let sender = queue.sender();
    sender.lock().unwrap().send(QueueState::Spin).unwrap();
    sender.lock().unwrap().send(QueueState::Terminate).unwrap();
    // The iterator's look finds the first signal, the poll's look the second.
    assert!(matches!(queue.into_iter().next(), Ok(None)));
    assert_eq!(queue.len(), 1);
    sender.lock().unwrap().send(QueueState::Spin).unwrap();
    sender.lock().unwrap().send(QueueState::Yield(9)).unwrap();
    sender.lock().unwrap().send(QueueState::Error(QueueError::Error)).unwrap();
    // Both looks of the first round find signals that are passed over.
    assert!(matches!(queue.into_iter().next(), Ok(Some(IterWaker::Item(1)))));
    // An empty queue is looked at again and again: the first look of the next call finds it.
    assert!(matches!(queue.into_iter().next(), Err(QueueError::Error)));
    let mut blocking: BlockingQueue<u8> = BlockingQueue::new();
    blocking.push(4);
    let sender = blocking.sender();
    sender.lock().unwrap().send(QueueState::Spin).unwrap();
    sender.lock().unwrap().send(QueueState::Terminate).unwrap();
    // One look at the queue's own channel in each round.
    assert!(matches!(blocking.iter().next(), Ok(Some(IterWaker::Item(4)))));
    assert!(matches!(blocking.iter().next(), Ok(None)));
}
