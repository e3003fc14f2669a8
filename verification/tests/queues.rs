use std::sync::atomic::{AtomicUsize, Ordering};
use std::sync::Mutex;

use co_queue::blocking::BlockingQueue;
use co_queue::channel::QueueState;
use co_queue::co_queue::CoQueue;
use co_queue::shift_guard::{pg_with, PtrGuard};
use co_queue::shift_model::{Node, ShiftPopStage, ShiftPushStage};
use co_queue::shift_queue::ShiftQueue;
use co_queue::stream::{IterWaker, Polled};
use crossbeam::scope;
use crossbeam_utils::thread;

#[test]
fn ptr_guard_queue() {
    let mut guard: PtrGuard<Node<u8>> = pg_with(4);
    for x in 0..4_u8 {
        assert!(guard.push(Node::new(x)).is_ok());
    }
    assert!(guard.push(Node::new(5)).is_err());
    assert!(guard.len() == 4);

    for _x in 0..4_u8 {
        assert!(guard.pop().is_ok());
    }

    assert!(guard.pop().is_err());
    assert!(guard.is_empty());
}

#[test]
fn test_drop() {
    let ten = Box::new(10);
    {
        let mut q: ShiftQueue<Box<u8>> = ShiftQueue::new();
        q.push(ten);
    }
}

#[test]
fn push_try_pop_many_seq() {
    let mut q: ShiftQueue<u8> = ShiftQueue::new();
    assert!(q.is_empty());
    for i in 0..2 {
        q.push(i);
    }
    println!("{:#?}", q);
    assert!(!q.is_empty());
    for i in 0..2 {
        assert_eq!(q.try_pop(), Some(i));
    }
    assert!(q.is_empty());
}

const CONC_COUNT: i64 = 1000000;

#[test]
fn push_pop_many_spsc() {
    let q: Mutex<ShiftQueue<i64>> = Mutex::new(ShiftQueue::new());

    thread::scope(|scope| {
        scope.spawn(|_| {
            let mut next = 0;
            while next < CONC_COUNT {
                let popped = loop {
                    if let Some(x) = q.lock().unwrap().try_pop() {
                        break x;
                    }
                };
                assert_eq!(popped, next);
                next += 1;
            }
        });

        for i in 0..CONC_COUNT {
            q.lock().unwrap().push(i)
        }
    })
    .unwrap();
    assert!(q.lock().unwrap().is_empty());
}

/// Pushes step by step: other threads may come in between any two accesses.
fn push_among_others(q: &Mutex<ShiftQueue<u32>>, val: u32) {
    let mut op = q.lock().unwrap().start_push(val);
    while op.stage != ShiftPushStage::Done {
        q.lock().unwrap().push_step(&mut op);
    }
}

/// Pops step by step, until a value comes.
fn pop_among_others(q: &Mutex<ShiftQueue<u32>>) -> u32 {
    loop {
        let mut op = ShiftQueue::start_pop();
        while op.stage != ShiftPopStage::Done {
            q.lock().unwrap().pop_step(&mut op);
        }
        if let Some(val) = op.result {
            return val;
        }
    }
}

#[test]
fn exercise_push_pop_guards() {
    const COUNT: u32 = 100_u32;
    let q: Mutex<ShiftQueue<u32>> = Mutex::new(ShiftQueue::with_threads(4));
    let counts: Mutex<Vec<u32>> = Mutex::new(vec![0; COUNT as usize]);

    thread::scope(|scope| {
        // PUSH THREADS
        for _ in 0..2 {
            scope.spawn(|_| {
                for i in 0..COUNT {
                    push_among_others(&q, i)
                }
            });
        }

        // POP THREADS
        for _ in 0..2 {
            scope.spawn(|_| {
                let mut next = 0;
                while next < COUNT {
                    let val = pop_among_others(&q);
                    counts.lock().unwrap()[val as usize] += 1;
                    next += 1;
                }
            });
        }
    })
    .unwrap();
    assert_eq!(*counts.lock().unwrap(), vec![2; COUNT as usize]);
    assert!(q.lock().unwrap().is_empty());
}

#[test]
fn spsc() {
    const COUNT: usize = 10;

    let q = Mutex::new(CoQueue::new());

    scope(|scope| {
        scope.spawn(|_| {
            for i in 0..=COUNT {
                loop {
                    if let Ok(x) = q.lock().unwrap().pop() {
                        assert_eq!(x, i);
                        break;
                    }
                }
            }
            assert!(q.lock().unwrap().pop().is_err());
        });
        scope.spawn(|_| {
            for i in 0..=COUNT {
                q.lock().unwrap().push(i);
            }
            println!("DONE");
        });
    })
    .unwrap();
}

#[test]
fn mpmc() {
    const COUNT: usize = 20;
    const THREADS: usize = 4;

    let q = Mutex::new(CoQueue::<usize>::new());
    let v = (0..COUNT).map(|_| AtomicUsize::new(0)).collect::<Vec<_>>();

    scope(|scope| {
        for _ in 0..THREADS {
            scope.spawn(|_| {
                for _ in 0..COUNT {
                    let n = loop {
                        if let Ok(x) = q.lock().unwrap().pop() {
                            break x;
                        }
                    };
                    v[n].fetch_add(1, Ordering::SeqCst);
                }
            });
        }
        for _ in 0..THREADS {
            scope.spawn(|_| {
                for i in 0..COUNT {
                    q.lock().unwrap().push(i);
                }
            });
        }
    })
    .unwrap();

    for c in v {
        assert_eq!(c.load(Ordering::SeqCst), THREADS);
    }
}

#[test]
fn non_mut_iter_que() {
    let mut x = 0;

    let que = BlockingQueue::new();
    let sender = que.sender();
    let que = Mutex::new(que);

    scope(|scope| {
        scope.spawn(|_| {
            for i in 0..5 {
                que.lock().unwrap().push(i);
            }

            for i in 0..5 {
                que.lock().unwrap().push(i);
            }
            assert_eq!(10, que.lock().unwrap().len());
        });
    })
    .unwrap();

    scope(|scope| {
        scope.spawn(|_| {
            let mut que = que.lock().unwrap();
            {
                let mut iter = que.iter();
                while let Some(item) = iter.next().unwrap() {
                    if let IterWaker::Item(i) = item {
                        assert!(i <= 4);
                    }

                    x += 1;
                    if x > 11 {
                        sender.lock().unwrap().send(QueueState::Terminate).unwrap();
                    }
                }
            }
            // make sure it does not hang forever
            assert!(que.is_empty())
        });
    })
    .unwrap();
}

#[test]
fn stream_que() {
    let que = CoQueue::new();

    let thread_que: Mutex<CoQueue<u8>> = Mutex::new(que);

    scope(|scope| {
        scope.spawn(|_| {
            for i in 0..5 {
                thread_que.lock().unwrap().push(i);
            }
        });
    })
    .unwrap();
    scope(|scope| {
        scope.spawn(|_| {
            for i in 0..5 {
                let res = match thread_que.lock().unwrap().poll_next() {
                    Polled::Ready(res) => res,
                    Polled::Pending => panic!("nothing was ready"),
                    Polled::Failed(err) => panic!("{}", err.describe()),
                };
                assert_eq!(Some(i), res);
            }
        });
    })
    .unwrap();
}

#[test]
fn streaming_iter_que() {
    let mut x = 0;

    let que = CoQueue::new();
    let sender = que.sender();

    let thread_que: Mutex<CoQueue<u8>> = Mutex::new(que);

    scope(|scope| {
        scope.spawn(|_| {
            for i in 0..5 {
                thread_que.lock().unwrap().push(i);
            }

            for i in 0..5 {
                thread_que.lock().unwrap().push(i);
            }
            assert_eq!(10, thread_que.lock().unwrap().len());
        });
    })
    .unwrap();

    scope(|scope| {
        scope.spawn(|_| {
            let mut que = thread_que.lock().unwrap();
            {
                let mut iter = que.into_iter();
                while let Some(item) = iter.next().unwrap() {
                    if let IterWaker::Item(i) = item {
                        assert!(i <= 4);
                    }

                    x += 1;
                    if x > 11 {
                        sender.lock().unwrap().send(QueueState::Terminate).unwrap();
                    }
                }
            }
            // make sure it does not hang forever
            assert!(que.is_empty())
        });
    })
    .unwrap();
}
