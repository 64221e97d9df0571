use vstd::prelude::*;
use crate::query::QueryError;

verus! {

/// Calls `AtomicBool::load`, which answers what the flag holds at this
/// moment. The flag is set from outside, so nothing is known of the answer.
#[verifier::external_body]
fn is_set(flag: &std::sync::atomic::AtomicBool) -> (set: bool) {
    flag.load(std::sync::atomic::Ordering::SeqCst)
}

/// What a checkpoint answers for what the flag held: the query goes on,
/// unless it was cancelled.
pub fn checkpoint_of(cancelled: bool) -> (res: Result<(), QueryError>)
    ensures
        cancelled ==> res == Err::<(), QueryError>(QueryError::Cancelled),
        !cancelled ==> res == Ok::<(), QueryError>(()),
{
    if cancelled {
        Err(QueryError::Cancelled)
    } else {
        Ok(())
    }
}

/// A checkpoint of a query: the query goes on, unless the flag says that
/// it was cancelled.
pub fn checkpoint(cancelled: &std::sync::atomic::AtomicBool) -> (res: Result<(), QueryError>)
    ensures
        res matches Err(e) ==> e == QueryError::Cancelled,
{
    checkpoint_of(is_set(cancelled))
}

} // verus!
