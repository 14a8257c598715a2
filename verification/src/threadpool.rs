//! The errors of a fixed-size worker pool, and the decisions the pool makes:
//! whether it can be created, and how joining its workers ends.
use vstd::prelude::*;

verus! {

/// What can go wrong with a worker pool.
#[derive(Debug, Clone, Copy, PartialEq, Eq, Structural)]
pub enum ThreadPoolError {
    NoWorkers,
    Disconnected,
    WorkerPanicked,
}

/// The message of each error.
pub open spec fn error_message(e: ThreadPoolError) -> Seq<char> {
    match e {
        ThreadPoolError::NoWorkers => "thread pool requires at least one worker"@,
        ThreadPoolError::Disconnected => "thread pool work channel disconnected"@,
        ThreadPoolError::WorkerPanicked => "thread pool worker panicked"@,
    }
}

impl ThreadPoolError {
    /// The message that describes this error.
    pub fn message(&self) -> (r: String)
        ensures
            r@ == error_message(*self),
    {
        match self {
            ThreadPoolError::NoWorkers => String::from_str("thread pool requires at least one worker"),
            ThreadPoolError::Disconnected => String::from_str("thread pool work channel disconnected"),
            ThreadPoolError::WorkerPanicked => String::from_str("thread pool worker panicked"),
        }
    }
}

/// Whether a pool of `num_threads` workers can be created: it needs at least one.
pub fn check_worker_count(num_threads: usize) -> (r: Result<(), ThreadPoolError>)
    ensures
        r is Ok <==> num_threads > 0,
        r is Err ==> r == Err::<(), ThreadPoolError>(ThreadPoolError::NoWorkers),
{
    if num_threads == 0 {
        Err(ThreadPoolError::NoWorkers)
    } else {
        Ok(())
    }
}

/// How joining the workers ends, given whether each worker panicked: an
/// error exactly when one of them did.
pub fn join_outcome(panicked: &Vec<bool>) -> (r: Result<(), ThreadPoolError>)
    ensures
        r is Ok <==> !panicked@.contains(true),
        r is Err ==> r == Err::<(), ThreadPoolError>(ThreadPoolError::WorkerPanicked),
{
    let mut any = false;
    let mut i: usize = 0;
    while i < panicked.len()
        invariant
            i <= panicked.len(),
            any == panicked@.take(i as int).contains(true),
        decreases panicked.len() - i,
    {
        assert(panicked@.take(i + 1) =~= panicked@.take(i as int).push(panicked@[i as int]));
        any = any || panicked[i];
        proof {
            let t = panicked@.take(i + 1);
            if any {
                if panicked@[i as int] {
                    assert(t[i as int] == true);
                } else {
                    let k = choose|k: int| 0 <= k < i && panicked@.take(i as int)[k] == true;
                    assert(t[k] == true);
                }
            } else {
                assert forall|k: int| 0 <= k < t.len() implies t[k] != true by {
                    if k < i {
                        assert(t[k] == panicked@.take(i as int)[k]);
                    }
                }
            }
        }
        i = i + 1;
    }
    assert(panicked@.take(panicked.len() as int) =~= panicked@);
    if any {
        Err(ThreadPoolError::WorkerPanicked)
    } else {
        Ok(())
    }
}

} // verus!
