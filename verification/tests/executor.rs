use metamath_pipeline::executor::{queue_work, Executor, JobQueue};
use std::cell::RefCell;
use std::rc::Rc;

#[test]
fn queued_jobs_are_dispatched_largest_first() {
    let done: Rc<RefCell<Vec<usize>>> = Rc::new(RefCell::new(Vec::new()));
    let mut exec: Executor<Box<dyn FnOnce()>> = Executor::new(2);
    assert!(!exec.runs_inline());
    for estimate in 1..=10usize {
        let done = done.clone();
        let queued = queue_work(&mut exec, estimate, Box::new(move || done.borrow_mut().push(estimate)));
        assert!(queued);
    }
    assert_eq!(exec.active(), 10);
    assert!(done.borrow().is_empty());
    while let Some(job) = exec.next_job() {
        job();
    }
    assert_eq!(*done.borrow(), vec![10, 9, 8, 7, 6, 5, 4, 3, 2, 1]);
    assert_eq!(exec.active(), 0);
}

#[test]
fn without_a_pool_work_runs_at_once() {
    let done: Rc<RefCell<Vec<usize>>> = Rc::new(RefCell::new(Vec::new()));
    for concurrency in 0..=1usize {
        let mut exec: Executor<Box<dyn FnOnce()>> = Executor::new(concurrency);
        assert_eq!(exec.concurrency(), concurrency);
        assert!(exec.runs_inline());
        for estimate in [5usize, 9, 1] {
            let done = done.clone();
            let queued = queue_work(&mut exec, estimate, Box::new(move || done.borrow_mut().push(estimate)));
            assert!(!queued);
        }
        assert_eq!(exec.active(), 0);
        assert!(exec.next_job().is_none());
    }
    assert_eq!(*done.borrow(), vec![5, 9, 1, 5, 9, 1]);
}

#[test]
fn equal_estimates_leave_in_the_order_they_came() {
    let mut queue: JobQueue<&'static str> = JobQueue::new();
    queue.push(4, "first");
    queue.push(7, "big");
    queue.push(4, "second");
    queue.push(4, "third");
    queue.push(1, "small");
    assert_eq!(queue.len(), 5);
    let mut order = Vec::new();
    while let Some((estimate, name)) = queue.pop() {
        order.push((estimate, name));
    }
    assert_eq!(order, vec![(7, "big"), (4, "first"), (4, "second"), (4, "third"), (1, "small")]);
    assert_eq!(queue.pop(), None);
    assert_eq!(queue.len(), 0);
}
