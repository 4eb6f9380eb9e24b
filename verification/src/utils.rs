//! An iterator over results that stops at the first error and keeps it.
use vstd::prelude::*;

verus! {

/// Yields the values of a sequence of results until it meets an error;
/// then it yields nothing and holds the error in `error`. The next call
/// after that goes on with the items after the error.
pub struct StopOnFirstErrorIterator<U, E> {
    /// The items not yet taken, the next one last.
    pub rest: Vec<Result<U, E>>,
    pub error: Option<E>,
}

/// `s` in reverse order.
pub open spec fn reversed<A>(s: Seq<A>) -> Seq<A> {
    Seq::new(s.len(), |i: int| s[s.len() - 1 - i])
}

impl<U, E> StopOnFirstErrorIterator<U, E> {
    /// The items not yet taken, the next one first.
    pub open spec fn remaining(&self) -> Seq<Result<U, E>> {
        reversed(self.rest@)
    }

    /// An iterator over the given items, holding no error.
    pub fn new(inner: Vec<Result<U, E>>) -> (r: Self)
        ensures
            r.remaining() == inner@,
            r.error is None,
    {
        let ghost items = inner@;
        let mut inner = inner;
        let mut rest: Vec<Result<U, E>> = Vec::new();
        while inner.len() > 0
            invariant
                inner@.len() + rest@.len() == items.len(),
                inner@ == items.subrange(0, inner@.len() as int),
                forall|i: int| 0 <= i < rest@.len() ==> rest@[i] == items[items.len() - 1 - i],
            decreases inner.len(),
        {
            let x = inner.pop().unwrap();
            rest.push(x);
        }
        let r = StopOnFirstErrorIterator { rest, error: None };
        assert(r.remaining() =~= items);
        r
    }

    /// The next value; `None` at the end or at an error, which is then kept
    /// in `error`.
    pub fn next(&mut self) -> (r: Option<U>)
        ensures
            old(self).remaining().len() == 0 ==> r is None && final(self).remaining() == old(
                self,
            ).remaining() && final(self).error == old(self).error,
            old(self).remaining().len() > 0 ==> final(self).remaining() == old(
                self,
            ).remaining().drop_first(),
            old(self).remaining().len() > 0 ==> match old(self).remaining()[0] {
                Ok(u) => r == Some(u) && final(self).error == old(self).error,
                Err(e) => r is None && final(self).error == Some(e),
            },
    {
        match self.rest.pop() {
            Some(Ok(u)) => {
                assert(self.remaining() =~= old(self).remaining().drop_first());
                Some(u)
            },
            Some(Err(e)) => {
                self.error = Some(e);
                assert(self.remaining() =~= old(self).remaining().drop_first());
                None
            },
            None => None,
        }
    }
}

} // verus!
