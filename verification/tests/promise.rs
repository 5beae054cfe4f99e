use metamath_pipeline::promise::{Failure, Promise};
use std::cell::Cell;
use std::rc::Rc;

fn failure(message: &str) -> Failure {
    Failure { message: message.to_string() }
}

#[test]
fn ready_promise_delivers_its_value() {
    assert_eq!(Promise::new(7u32).wait(), Ok(7));
}

#[test]
fn closure_runs_at_wait_time_only() {
    let calls = Rc::new(Cell::new(0u32));
    let seen = calls.clone();
    let promise = Promise::new_once(move || {
        seen.set(seen.get() + 1);
        Ok(seen.get())
    });
    assert_eq!(calls.get(), 0);
    assert_eq!(promise.wait(), Ok(1));
    assert_eq!(calls.get(), 1);
}

#[test]
fn map_applies_the_function_to_the_value() {
    let promise = Promise::new(20u32).map(|v| v + 1);
    assert_eq!(promise.wait(), Ok(21));
}

#[test]
fn map_is_deferred_until_wait() {
    let calls = Rc::new(Cell::new(0u32));
    let seen = calls.clone();
    let promise = Promise::new(1u32).map(move |v| {
        seen.set(seen.get() + 1);
        v * 2
    });
    assert_eq!(calls.get(), 0);
    assert_eq!(promise.wait(), Ok(2));
    assert_eq!(calls.get(), 1);
}

#[test]
fn map_passes_a_failure_on_and_skips_the_function() {
    let calls = Rc::new(Cell::new(0u32));
    let seen = calls.clone();
    let failing: Promise<u32> = Promise::new_once(|| Err(failure("task gave up")));
    let promise = failing.map(move |v| {
        seen.set(seen.get() + 1);
        v
    });
    assert_eq!(promise.wait(), Err(failure("task gave up")));
    assert_eq!(calls.get(), 0);
}

#[test]
fn join_keeps_the_order_of_its_parts() {
    let parts = vec![Promise::new(3u32), Promise::new(1), Promise::new(2)];
    assert_eq!(Promise::join(parts).wait(), Ok(vec![3, 1, 2]));
}

#[test]
fn join_of_nothing_is_an_empty_list() {
    let parts: Vec<Promise<u32>> = Vec::new();
    assert_eq!(Promise::join(parts).wait(), Ok(Vec::new()));
}

#[test]
fn join_delivers_the_first_failure_and_waits_no_further() {
    let waited = Rc::new(Cell::new(0u32));
    let seen = waited.clone();
    let parts: Vec<Promise<u32>> = vec![
        Promise::new(1),
        Promise::new_once(|| Err(failure("first"))),
        Promise::new_once(move || {
            seen.set(seen.get() + 1);
            Err(failure("second"))
        }),
    ];
    assert_eq!(Promise::join(parts).wait(), Err(failure("first")));
    assert_eq!(waited.get(), 0);
}

#[test]
fn failure_clone_is_equal() {
    let f = failure("same");
    assert_eq!(f.clone(), f);
}
