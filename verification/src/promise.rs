//! Promises: handles for values that become available later.
//!
//! A promise wraps a deferred computation.  Waiting on it runs the computation
//! on the waiting thread and hands back its outcome, which is either the value
//! or the failure that the task behind it delivered.  Promises compose with
//! `map` and `join`; a failure travels through both unchanged.

use vstd::prelude::*;

verus! {

/// What a task delivers in place of a value when it terminates abnormally.
#[derive(Debug, PartialEq, Eq)]
pub struct Failure {
    pub message: String,
}

impl Clone for Failure {
    fn clone(&self) -> (copy: Self)
        ensures
            copy == *self,
    {
        Failure { message: self.message.clone() }
    }
}

/// The outcome of waiting on a promise.
pub type Outcome<T> = Result<T, Failure>;

/// A computation that can be run once.
trait Deferred<T> {
    /// The computation has not run yet and may be run.
    spec fn armed(&self) -> bool;

    /// `r` is a possible outcome of running the computation.
    spec fn yields(&self, r: Outcome<T>) -> bool;

    fn force(&mut self) -> (r: Outcome<T>)
        requires
            old(self).armed(),
        ensures
            old(self).yields(r),
    ;
}

/// A closure that is called at most once.
struct Once<FN>(Option<FN>);

impl<T, FN: FnOnce() -> Outcome<T>> Deferred<T> for Once<FN> {
    closed spec fn armed(&self) -> bool {
        self.0 is Some && call_requires(self.0->0, ())
    }

    closed spec fn yields(&self, r: Outcome<T>) -> bool {
        self.0 is Some && call_ensures(self.0->0, (), r)
    }

    fn force(&mut self) -> (r: Outcome<T>) {
        let fun = self.0.take().unwrap();
        fun()
    }
}

/// A handle for a value which will be available later.
#[verifier::reject_recursive_types(T)]
pub struct Promise<T>(Box<dyn Deferred<T>>);

/// The outcome of a mapped promise: a failure of the source as it is, a value
/// of the source passed through `fun`.
pub open spec fn map_outcome<T, RV, FN: FnOnce(T) -> RV>(
    source: Promise<T>,
    fun: FN,
    r: Outcome<RV>,
) -> bool {
    match r {
        Ok(rv) => exists|v: T| #[trigger] source.yields(Ok(v)) && call_ensures(fun, (v,), rv),
        Err(e) => source.yields(Err(e)),
    }
}

/// The outcome of joining `parts`: all their values in the order of `parts`, or
/// the failure of the first part that fails, the parts before it having
/// delivered values.
pub open spec fn join_outcome<T>(parts: Seq<Promise<T>>, r: Outcome<Vec<T>>) -> bool {
    &&& r matches Ok(values) ==> {
        &&& values@.len() == parts.len()
        &&& forall|i: int|
            #![trigger parts[i]]
            #![trigger values@[i]]
            0 <= i < parts.len() ==> parts[i].yields(Ok(values@[i]))
    }
    &&& r matches Err(e) ==> exists|k: int| first_failure(parts, k, e)
}

/// Part `k` of `parts` fails with `e`, and every part before it can deliver a
/// value.
pub open spec fn first_failure<T>(parts: Seq<Promise<T>>, k: int, e: Failure) -> bool {
    &&& 0 <= k < parts.len()
    &&& parts[k].yields(Err(e))
    &&& forall|i: int| 0 <= i < k ==> (#[trigger] parts[i]).can_deliver()
}

/// The outcome of a join does not depend on when its parts are waited for or
/// in which order their tasks came to an end: where every part has one
/// possible outcome, so has the join.
pub proof fn join_is_determined<T>(
    parts: Seq<Promise<T>>,
    outcomes: Seq<Outcome<T>>,
    a: Outcome<Vec<T>>,
    b: Outcome<Vec<T>>,
)
    requires
        outcomes.len() == parts.len(),
        forall|i: int, r: Outcome<T>|
            0 <= i < parts.len() && #[trigger] parts[i].yields(r) ==> r == outcomes[i],
        join_outcome(parts, a),
        join_outcome(parts, b),
    ensures
        match (a, b) {
            (Ok(x), Ok(y)) => x@ == y@,
            (Err(e), Err(f)) => e == f,
            _ => false,
        },
{
    match (a, b) {
        (Ok(x), Ok(y)) => {
            assert forall|i: int| 0 <= i < x@.len() implies x@[i] == y@[i] by {
                assert(parts[i].yields(Ok(x@[i])));
                assert(parts[i].yields(Ok(y@[i])));
            }
            assert(x@ =~= y@);
        },
        (Err(e), Err(f)) => {
            let k = choose|k: int| first_failure(parts, k, e);
            let m = choose|m: int| first_failure(parts, m, f);
            if k < m {
                assert(parts[k].can_deliver());
                let v = choose|v: T| parts[k].yields(Ok(v));
                assert(parts[k].yields(Ok(v)));
            } else if m < k {
                assert(parts[m].can_deliver());
                let v = choose|v: T| parts[m].yields(Ok(v));
                assert(parts[m].yields(Ok(v)));
            }
        },
        (Ok(x), Err(f)) => {
            let m = choose|m: int| first_failure(parts, m, f);
            assert(parts[m].yields(Ok(x@[m])));
        },
        (Err(e), Ok(y)) => {
            let k = choose|k: int| first_failure(parts, k, e);
            assert(parts[k].yields(Ok(y@[k])));
        },
    }
}

impl<T> Promise<T> {
    #[verifier::type_invariant]
    closed spec fn armed(self) -> bool {
        self.0.armed()
    }

    /// `r` is a possible outcome of waiting on this promise.
    pub closed spec fn yields(&self, r: Outcome<T>) -> bool {
        self.0.yields(r)
    }

    /// Some value is a possible outcome of waiting on this promise.
    pub open spec fn can_deliver(&self) -> bool {
        exists|v: T| self.yields(Ok(v))
    }

    /// Wait for the outcome to be available and return it.
    pub fn wait(self) -> (r: Outcome<T>)
        ensures
            self.yields(r),
    {
        proof {
            use_type_invariant(&self);
        }
        let Promise(mut inner) = self;
        inner.force()
    }

    /// Construct a promise which uses a provided closure to wait for the
    /// outcome when necessary.
    ///
    /// The closure is called when `wait` is called, on the thread where `wait`
    /// is called.
    pub fn new_once<FN>(fun: FN) -> (p: Promise<T>) where FN: FnOnce() -> Outcome<T> + 'static
        requires
            call_requires(fun, ()),
        ensures
            forall|r: Outcome<T>| p.yields(r) ==> call_ensures(fun, (), r),
    {
        Promise(Box::new(Once(Some(fun))))
    }

    /// Wrap a value which is available now in a promise.
    pub fn new(value: T) -> (p: Promise<T>) where T: 'static
        ensures
            forall|r: Outcome<T>| p.yields(r) ==> r == Ok::<T, Failure>(value),
    {
        Promise::new_once(move || -> (r: Outcome<T>)
            ensures
                r == Ok::<T, Failure>(value),
            { Ok(value) })
    }

    /// Modify a promise with a function, which will be called at `wait` time
    /// on the `wait` thread.  A failure of this promise skips the function.
    pub fn map<FN, RV>(self, fun: FN) -> (p: Promise<RV>) where
        T: 'static,
        FN: FnOnce(T) -> RV + 'static,

        requires
            forall|v: T| self.yields(Ok(v)) ==> call_requires(fun, (v,)),
        ensures
            forall|r: Outcome<RV>| p.yields(r) ==> map_outcome(self, fun, r),
    {
        Promise::new_once(move || -> (r: Outcome<RV>)
            ensures
                map_outcome(self, fun, r),
            {
                match self.wait() {
                    Ok(v) => Ok(fun(v)),
                    Err(e) => Err(e),
                }
            })
    }

    /// Convert a collection of promises into a single promise, which waits
    /// for its parts in order and stops at the first failure.
    pub fn join(promises: Vec<Promise<T>>) -> (p: Promise<Vec<T>>) where T: 'static
        ensures
            forall|r: Outcome<Vec<T>>| p.yields(r) ==> join_outcome(promises@, r),
    {
        Promise::new_once(move || -> (r: Outcome<Vec<T>>)
            ensures
                join_outcome(promises@, r),
            { wait_all(promises) })
    }
}

/// Waits for `promises` one after the other, from the first to the last.
fn wait_all<T>(promises: Vec<Promise<T>>) -> (r: Outcome<Vec<T>>)
    ensures
        join_outcome(promises@, r),
{
    let ghost parts = promises@;
    let mut values: Vec<T> = Vec::new();
    for next in it: promises
        invariant
            it.seq() == parts,
            parts == promises@,
            values@.len() == it.index(),
            forall|i: int| 0 <= i < values@.len() ==> #[trigger] parts[i].yields(Ok(values@[i])),
    {
        match next.wait() {
            Ok(v) => {
                values.push(v);
            },
            Err(e) => {
                proof {
                    let k = it.index() as int;
                    assert forall|i: int| 0 <= i < k implies (#[trigger] parts[i]).can_deliver() by {
                        assert(parts[i].yields(Ok(values@[i])));
                    }
                    assert(first_failure(parts, k, e));
                    assert(Err::<Vec<T>, Failure>(e)->Err_0 == e);
                }
                return Err(e);
            },
        }
    }
    Ok(values)
}

} // verus!
