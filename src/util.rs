//! Small helpers over slices and stacks.

use vstd::prelude::*;

use crate::error::Error;

verus! {

/// A read position over a slice that can step forwards and back.
pub struct Cursor<'a, T> {
    items: &'a [T],
    pos: usize,
}

impl<'a, T> Cursor<'a, T> {
    pub closed spec fn items(&self) -> Seq<T> {
        self.items@
    }

    pub closed spec fn position(&self) -> int {
        self.pos as int
    }

    pub open spec fn wf(&self) -> bool {
        0 <= self.position() <= self.items().len()
    }

    /// A cursor at the start of `items`.
    pub fn new(items: &'a [T]) -> (r: Cursor<'a, T>)
        ensures
            r.wf(),
            r.items() == items@,
            r.position() == 0,
    {
        Cursor { items, pos: 0 }
    }

    /// The item at the current position, if any.
    pub fn peek(&self) -> (r: Option<&T>)
        requires
            self.wf(),
        ensures
            self.position() < self.items().len() ==> r == Some(&self.items()[self.position()]),
            self.position() == self.items().len() ==> r is None,
    {
        if self.pos < self.items.len() {
            Some(&self.items[self.pos])
        } else {
            None
        }
    }

    /// Steps back one item, if not at the start, and returns the item stepped onto.
    pub fn back(&mut self) -> (r: Option<&T>)
        requires
            old(self).wf(),
        ensures
            final(self).wf(),
            final(self).items() == old(self).items(),
            old(self).position() > 0 ==> final(self).position() == old(self).position() - 1
                && r == Some(&old(self).items()[old(self).position() - 1]),
            old(self).position() == 0 ==> final(self).position() == 0 && r is None,
    {
        if self.pos > 0 {
            self.pos = self.pos - 1;
            Some(&self.items[self.pos])
        } else {
            None
        }
    }
}

/// Pops the top `n` items of `s` (deepest first), hands them to `f`, and pushes what
/// `f` returns. Fails, leaving `s` as it was, when `s` holds fewer than `n` items.
pub fn pop_n<T, F: Fn(Vec<T>) -> T>(s: &mut Vec<T>, n: usize, f: F) -> (r: Result<(), Error>)
    requires
        forall|args: Vec<T>| args@.len() == n ==> #[trigger] f.requires((args,)),
    ensures
        old(s)@.len() < n ==> r == Err::<(), Error>(Error::NotEnoughArguments(n, old(s)@.len() as usize))
            && final(s)@ == old(s)@,
        n <= old(s)@.len() ==> r is Ok && exists|args: Vec<T>, out: T|
            args@ == old(s)@.subrange(old(s)@.len() - n, old(s)@.len() as int)
                && #[trigger] f.ensures((args,), out)
                && final(s)@ == old(s)@.subrange(0, old(s)@.len() - n).push(out),
{
    let len = s.len();
    if len < n {
        return Err(Error::NotEnoughArguments(n, len));
    }
    let args_start = len - n;
    let args = s.split_off(args_start);
    let ghost taken = args;
    let result = f(args);
    s.push(result);
    assert(f.ensures((taken,), result));
    Ok(())
}

} // verus!
