use std::sync::Mutex;

use co_queue::shift_guard::{num_threads, pg_with, ThreadCount};
use co_queue::shift_model::{Node, ShiftPopStage, ShiftPushStage};
use co_queue::shift_queue::{RawQueue, ShiftQueue, ShiftThreads};

#[test]
fn values_come_out_in_the_order_in_which_they_went_in() {
    let mut queue = ShiftQueue::with_threads(3);
    for i in 0..50u32 {
        queue.push(i);
    }
    for i in 0..50u32 {
        assert!(!queue.is_empty());
        assert_eq!(queue.pop(), i);
    }
    assert_eq!(queue.try_pop(), None);
    let mut left = ShiftQueue::with_threads(2);
    for i in 0..9u32 {
        left.push(i);
    }
    assert_eq!(left.try_pop(), Some(0));
    assert_eq!(left.into_remaining(), (1..9).collect::<Vec<u32>>());
    queue.push(7);
    assert_eq!(queue.try_pop(), Some(7));
    assert!(ShiftQueue::<u8>::default().is_empty());
    assert!(RawQueue::<u8>::default().is_empty());
}

/// What a queue answers to a row of calls.
fn answers(mut queue: ShiftQueue<u8>) -> Vec<(bool, Option<u8>)> {
    let mut given = Vec::new();
    for i in 0..40u8 {
        if i % 3 != 2 {
            queue.push(i);
        }
        given.push((queue.is_empty(), None));
        if i % 4 > 1 {
            let popped = queue.try_pop();
            given.push((queue.is_empty(), popped));
        }
    }
    while !queue.is_empty() {
        given.push((false, Some(queue.pop())));
    }
    given.push((queue.is_empty(), queue.try_pop()));
    given
}

#[test]
fn the_number_of_threads_never_shows() {
    let first = answers(ShiftQueue::new());
    for threads in 0..6 {
        assert_eq!(answers(ShiftQueue::with_threads(threads)), first);
    }
    assert_eq!(first.last(), Some(&(true, None)));
}

#[test]
fn a_pushed_value_comes_out_last() {
    for before in [0usize, 1, 7, 90] {
        let mut queue = ShiftQueue::with_threads(4);
        for i in 0..before {
            queue.push(i);
        }
        queue.push(1000);
        for i in 0..before {
            assert_eq!(queue.try_pop(), Some(i));
        }
        assert_eq!(queue.try_pop(), Some(1000));
        assert_eq!(queue.try_pop(), None);
        assert_eq!(queue.try_pop(), None);
    }
}

#[test]
fn the_number_of_threads_is_asked_for_once() {
    let mut count = ThreadCount::new();
    let first = count.num_threads();
    assert_eq!(first, num_cpus::get());
    assert_eq!(count.num_threads(), first);
    assert!(num_threads() >= 1);
}

#[test]
fn a_pop_holds_the_guard_from_its_lock_to_its_release() {
    let mut queue: RawQueue<u8> = RawQueue::with_threads(1);
    queue.push(1);
    let mut op = RawQueue::start_pop();
    let mut held = 0;
    while op.stage != ShiftPopStage::Done {
        if op.holds_guard() {
            held += 1;
        }
        queue.pop_step(&mut op);
    }
    assert_eq!(held, 2);
    assert!(!op.holds_guard());
}

#[test]
fn a_guard_hands_back_what_it_has_no_room_for() {
    let mut guard = pg_with(2);
    assert_eq!(guard.push('a'), Ok(()));
    assert_eq!(guard.push('b'), Ok(()));
    assert_eq!(guard.push('c'), Err('c'));
    assert_eq!(guard.pop(), Ok('b'));
    assert_eq!(guard.pop(), Ok('a'));
    assert_eq!(guard.pop(), Err(()));
    assert_eq!(pg_with(0).push(1), Err(1));
}

#[test]
fn nodes_start_without_a_successor() {
    let node = Node::new(4u8);
    assert_eq!(node.data, Some(4));
    assert_eq!(node.next(), None);
    let blank: Node<u8> = Node::default();
    assert_eq!(blank.data, None);
    assert!(blank.live);
}

#[test]
fn many_threads_push_and_pop_in_any_order() {
    let mut all = ShiftThreads::with_threads(2);
    let mut next = 0u32;
    let mut pushing: Vec<usize> = Vec::new();
    let mut popping: Vec<usize> = Vec::new();
    let mut got = Vec::new();
    let mut turn = 5usize;
    while got.len() < 60 {
        turn = turn.wrapping_mul(7621).wrapping_add(12345) % 32768;
        let choice = turn / 7;
        if choice % 2 == 0 {
            if pushing.len() < 3 && next < 60 {
                pushing.push(all.begin_push(next));
                next += 1;
            }
            if !pushing.is_empty() {
                let at = choice / 2 % pushing.len();
                if all.step_push(pushing[at]) {
                    pushing.remove(at);
                }
            }
        } else {
            if popping.len() < 3 {
                popping.push(all.begin_pop());
            }
            let at = choice / 2 % popping.len();
            if all.step_pop(popping[at]) {
                if let Some(val) = all.popped(popping[at]) {
                    got.push(*val);
                }
                popping.remove(at);
            }
        }
    }
    for i in pushing {
        while !all.step_push(i) {}
    }
    for i in popping {
        while !all.step_pop(i) {}
        assert_eq!(all.popped(i), None);
    }
    got.sort();
    assert_eq!(got, (0..60).collect::<Vec<u32>>());
    assert!(all.into_queue().is_empty());
}

#[test]
fn a_value_can_be_popped_before_its_push_has_moved_the_tail() {
    let mut all = ShiftThreads::with_threads(2);
    let push = all.begin_push('x');
    for _ in 0..4 {
        assert!(!all.step_push(push));
    }
    let pop = all.begin_pop();
    while !all.step_pop(pop) {}
    assert_eq!(all.popped(pop), Some(&'x'));
    let again = all.begin_pop();
    while !all.step_pop(again) {}
    assert_eq!(all.popped(again), None);
    while !all.step_push(push) {}
    let other = all.begin_push('y');
    while !all.step_push(other) {}
    let mut queue = all.into_queue();
    assert_eq!(queue.try_pop(), Some('y'));
}

fn run_pop(queue: &mut RawQueue<u8>) -> Option<u8> {
    let mut op = RawQueue::start_pop();
    while op.stage != ShiftPopStage::Done {
        queue.pop_step(&mut op);
    }
    op.result
}

#[test]
fn a_push_that_comes_second_tries_again() {
    let mut queue: RawQueue<u8> = RawQueue::with_threads(1);
    let mut first = queue.start_push(1);
    let mut second = queue.start_push(2);
    while first.stage != ShiftPushStage::Link {
        queue.push_step(&mut first);
    }
    while second.stage != ShiftPushStage::Link {
        queue.push_step(&mut second);
    }
    queue.push_step(&mut first);
    assert_eq!(first.stage, ShiftPushStage::Swing);
    queue.push_step(&mut second);
    assert_eq!(second.stage, ShiftPushStage::LoadTail);
    while second.stage != ShiftPushStage::Done {
        queue.push_step(&mut second);
    }
    while first.stage != ShiftPushStage::Done {
        queue.push_step(&mut first);
    }
    assert_eq!(run_pop(&mut queue), Some(1));
    assert_eq!(run_pop(&mut queue), Some(2));
    assert_eq!(run_pop(&mut queue), None);
    assert!(queue.is_empty());
}

#[test]
fn a_push_that_finds_the_tail_behind_moves_it() {
    let mut queue: RawQueue<u8> = RawQueue::with_threads(1);
    let mut first = queue.start_push(1);
    while first.stage != ShiftPushStage::Swing {
        queue.push_step(&mut first);
    }
    let mut second = queue.start_push(2);
    for stage in [
        ShiftPushStage::LoadTail,
        ShiftPushStage::LoadNext,
        ShiftPushStage::Help,
        ShiftPushStage::LoadTail,
        ShiftPushStage::LoadNext,
        ShiftPushStage::Link,
        ShiftPushStage::Swing,
        ShiftPushStage::Leave,
        ShiftPushStage::Done,
    ] {
        queue.push_step(&mut second);
        assert_eq!(second.stage, stage);
    }
    queue.push_step(&mut first);
    assert_eq!(first.stage, ShiftPushStage::Leave);
    queue.push_step(&mut first);
    assert_eq!(first.stage, ShiftPushStage::Done);
    assert_eq!(run_pop(&mut queue), Some(1));
    assert_eq!(run_pop(&mut queue), Some(2));
    assert!(queue.is_empty());
}

#[test]
fn nodes_are_freed_only_once_nobody_is_among_them() {
    let mut queue: RawQueue<u8> = RawQueue::with_threads(0);
    queue.push(1);
    queue.push(2);
    let mut slow = RawQueue::start_pop();
    while slow.stage != ShiftPopStage::Swing {
        queue.pop_step(&mut slow);
    }
    let mut quick = RawQueue::start_pop();
    while quick.stage != ShiftPopStage::Look {
        queue.pop_step(&mut quick);
    }
    assert_eq!(quick.result, Some(1));
    for stage in [ShiftPopStage::Defer, ShiftPopStage::Release, ShiftPopStage::Done] {
        queue.pop_step(&mut quick);
        assert_eq!(quick.stage, stage);
    }
    while slow.stage != ShiftPopStage::Lock {
        queue.pop_step(&mut slow);
    }
    assert_eq!(slow.result, Some(2));
    let mut freed = 0;
    while slow.stage != ShiftPopStage::Done {
        queue.pop_step(&mut slow);
        if slow.stage == ShiftPopStage::Clear || slow.stage == ShiftPopStage::FreeOld {
            freed += 1;
        }
    }
    // Nobody is among the nodes any more: the one that was put aside and its own are freed.
    assert_eq!(freed, 3);
    assert!(queue.is_empty());
}

#[test]
fn many_real_threads_share_a_queue() {
    let queue: Mutex<ShiftQueue<usize>> = Mutex::new(ShiftQueue::with_threads(2));
    let got: Mutex<Vec<usize>> = Mutex::new(Vec::new());
    crossbeam::scope(|scope| {
        for thread in 0..3 {
            let queue = &queue;
            scope.spawn(move |_| {
                for i in 0..100 {
                    let mut op = queue.lock().unwrap().start_push(thread * 100 + i);
                    while op.stage != ShiftPushStage::Done {
                        queue.lock().unwrap().push_step(&mut op);
                    }
                }
            });
        }
        for _ in 0..3 {
            scope.spawn(|_| {
                let mut mine = Vec::new();
                while mine.len() < 100 {
                    let mut op = ShiftQueue::start_pop();
                    while op.stage != ShiftPopStage::Done {
                        queue.lock().unwrap().pop_step(&mut op);
                    }
                    mine.extend(op.result);
                }
                for thread in 0..3 {
                    let of_thread: Vec<usize> =
                        mine.iter().copied().filter(|v| v / 100 == thread).collect();
                    assert!(of_thread.windows(2).all(|w| w[0] < w[1]));
                }
                got.lock().unwrap().extend(mine);
            });
        }
    })
    .unwrap();
    let mut got = got.into_inner().unwrap();
    got.sort();
    assert_eq!(got, (0..300).collect::<Vec<usize>>());
    assert!(queue.into_inner().unwrap().is_empty());
}
