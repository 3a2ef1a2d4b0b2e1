//! The state that an action sees when it runs.

use crate::bindings::{Bindings, Pair};
use vstd::prelude::*;

verus! {

/// The caller's per-invocation state together with the argument values bound
/// on the way to the action.
#[derive(Debug)]
pub struct ExecContext<C> {
    /// The caller's state, made fresh for each invocation.
    pub user_context: C,
    /// The argument values bound so far.
    pub bindings: Bindings,
}

impl<C> ExecContext<C> {
    /// The insertions made so far, oldest first.
    pub open spec fn trail(&self) -> Seq<Pair> {
        self.bindings.trail()
    }

    /// The bindings as a mapping from argument name to raw value.
    pub open spec fn bindings(&self) -> Map<Seq<char>, Seq<char>> {
        self.bindings@
    }

    /// A context around `user_context` with no bindings.
    pub fn new(user_context: C) -> (c: ExecContext<C>)
        ensures
            c.user_context == user_context,
            c.trail() == Seq::<Pair>::empty(),
            c.bindings() == Map::<Seq<char>, Seq<char>>::empty(),
    {
        ExecContext { user_context, bindings: Bindings::new() }
    }

    /// Binds `name` to `value`, replacing what `name` was bound to.
    pub fn insert_argument(&mut self, name: String, value: String)
        ensures
            final(self).trail() == old(self).trail().push((name@, value@)),
            final(self).bindings() == old(self).bindings().insert(name@, value@),
            final(self).user_context == old(self).user_context,
    {
        self.bindings.insert(name, value);
    }

    /// A copy of the value bound to `name`, if any.
    pub fn argument(&self, name: &str) -> (r: Option<String>)
        ensures
            match r {
                Some(v) => self.bindings().contains_key(name@) && self.bindings()[name@] == v@,
                None => !self.bindings().contains_key(name@),
            },
    {
        self.bindings.lookup(name)
    }

    /// The number of insertions made so far.
    pub fn depth(&self) -> (n: usize)
        ensures
            n == self.trail().len(),
    {
        self.bindings.depth()
    }

    /// Forgets every insertion after the first `depth` ones; with fewer
    /// insertions than that, nothing changes.
    pub fn rewind(&mut self, depth: usize)
        ensures
            final(self).trail() == if depth <= old(self).trail().len() {
                old(self).trail().take(depth as int)
            } else {
                old(self).trail()
            },
            final(self).user_context == old(self).user_context,
    {
        self.bindings.rewind(depth);
    }
}

} // verus!
