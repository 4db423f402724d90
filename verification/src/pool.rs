//! The size of the thread pool that the search runs on.

use vstd::prelude::*;

verus! {

/// Why rayon did not set up a thread pool, `rayon::ThreadPoolBuildError`. Nothing is known of
/// what it holds.
#[verifier::external_type_specification]
#[verifier::external_body]
pub struct ExThreadPoolBuildError(rayon::ThreadPoolBuildError);

/// Why the thread count was not set.
#[derive(Debug)]
pub struct PoolError(pub &'static str);

/// Sets up rayon's global thread pool with the given number of threads:
/// `ThreadPoolBuilder::build_global`. It fails where the pool was set up before; whether it
/// was is not known here.
#[verifier::external_body]
fn build_global_pool(threads: usize) -> (r: Result<(), rayon::ThreadPoolBuildError>) {
    rayon::ThreadPoolBuilder::new().num_threads(threads).build_global()
}

/// What the setting of the thread count comes to, from what the set-up of the pool came
/// to: it succeeds where the set-up did, and else fails with the words that the count was
/// set before.
pub fn thread_count_outcome(built: Result<(), rayon::ThreadPoolBuildError>) -> (r: Result<
    (),
    PoolError,
>)
    ensures
        r is Ok <==> built is Ok,
        r matches Err(e) ==> e.0@ == "Thread count already set"@,
{
    match built {
        Ok(()) => Ok(()),
        Err(_) => Err(PoolError("Thread count already set")),
    }
}

/// Sets the thread count for the thread pool of the search. The count can be set once, and
/// before the first search only; later calls fail.
pub fn set_thread_count(threads: usize) -> (r: Result<(), PoolError>)
    ensures
        r matches Err(e) ==> e.0@ == "Thread count already set"@,
{
    thread_count_outcome(build_global_pool(threads))
}

} // verus!
