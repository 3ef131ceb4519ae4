//! The FIFO queue of the `queues` crate, holding the tokens that the lexer has read
//! ahead.

use vstd::prelude::*;
use queues::{IsQueue, Queue};
use crate::lexer::Token;

verus! {

#[verifier::external_type_specification]
#[verifier::external_body]
#[verifier::reject_recursive_types(T)]
pub struct ExQueue<T: Clone>(Queue<T>);

/// The tokens in a queue, oldest first.
pub uninterp spec fn queued(q: Queue<Token>) -> Seq<Token>;

/// `Queue::new`: an empty queue.
#[verifier::external_body]
pub fn queue_new() -> (q: Queue<Token>)
    ensures
        queued(q) == Seq::<Token>::empty(),
{
    Queue::new()
}

/// `IsQueue::add`: appends `t` at the back. The crate's `add` always succeeds
/// (it returns `Ok(None)`), so nothing is handed back.
#[verifier::external_body]
pub fn queue_add(q: &mut Queue<Token>, t: Token)
    ensures
        queued(*final(q)) == queued(*old(q)).push(t),
{
    let _ = q.add(t);
}

/// `IsQueue::remove`: takes the oldest token out; its error (empty queue) becomes `None`.
#[verifier::external_body]
pub fn queue_remove(q: &mut Queue<Token>) -> (r: Option<Token>)
    ensures
        queued(*old(q)).len() > 0 ==> r == Some(queued(*old(q))[0]) && queued(*final(q))
            == queued(*old(q)).drop_first(),
        queued(*old(q)).len() == 0 ==> r is None && queued(*final(q)) == queued(*old(q)),
{
    q.remove().ok()
}

/// `IsQueue::size`: the number of tokens in the queue.
#[verifier::external_body]
pub fn queue_size(q: &Queue<Token>) -> (n: usize)
    ensures
        n == queued(*q).len(),
{
    q.size()
}

} // verus!
