//! Name-to-value bindings, kept as a trail of insertions in which the
//! latest entry for a name is the one that counts.

use vstd::prelude::*;
use vstd::string::*;

verus! {

/// A pair of a name and the raw value bound to it.
pub type Pair = (Seq<char>, Seq<char>);

/// The mapping that a trail of insertions stands for: each entry overwrites
/// any earlier entry of the same name.
pub open spec fn bound(trail: Seq<Pair>) -> Map<Seq<char>, Seq<char>>
    decreases trail.len(),
{
    if trail.len() == 0 {
        Map::empty()
    } else {
        bound(trail.drop_last()).insert(trail.last().0, trail.last().1)
    }
}

/// A name that no entry carries is not bound.
pub proof fn lemma_bound_absent(trail: Seq<Pair>, name: Seq<char>)
    requires
        forall|j: int| 0 <= j < trail.len() ==> #[trigger] trail[j].0 != name,
    ensures
        !bound(trail).contains_key(name),
    decreases trail.len(),
{
    if trail.len() > 0 {
        let front = trail.drop_last();
        assert forall|j: int| 0 <= j < front.len() implies #[trigger] front[j].0 != name by {
            assert(trail[j].0 != name);
        }
        lemma_bound_absent(front, name);
        assert(trail[trail.len() - 1].0 != name);
    }
}

/// A name is bound to the value of the last entry that carries it.
pub proof fn lemma_bound_latest(trail: Seq<Pair>, name: Seq<char>, i: int)
    requires
        0 <= i < trail.len(),
        trail[i].0 == name,
        forall|j: int| i < j < trail.len() ==> #[trigger] trail[j].0 != name,
    ensures
        bound(trail).contains_key(name),
        bound(trail)[name] == trail[i].1,
    decreases trail.len(),
{
    if i < trail.len() - 1 {
        let front = trail.drop_last();
        assert(front[i] == trail[i]);
        assert forall|j: int| i < j < front.len() implies #[trigger] front[j].0 != name by {
            assert(trail[j].0 != name);
        }
        lemma_bound_latest(front, name, i);
        assert(trail[trail.len() - 1].0 != name);
    }
}

/// A set of bindings from names to raw values.
#[derive(Debug, Clone)]
pub struct Bindings {
    entries: Vec<(String, String)>,
}

impl View for Bindings {
    type V = Map<Seq<char>, Seq<char>>;

    open spec fn view(&self) -> Map<Seq<char>, Seq<char>> {
        bound(self.trail())
    }
}

impl Bindings {
    /// The insertions made so far, oldest first.
    pub closed spec fn trail(&self) -> Seq<Pair> {
        Seq::new(self.entries@.len(), |i: int| (self.entries@[i].0@, self.entries@[i].1@))
    }

    /// No bindings.
    pub fn new() -> (b: Bindings)
        ensures
            b.trail() == Seq::<Pair>::empty(),
            b@ == Map::<Seq<char>, Seq<char>>::empty(),
    {
        let b = Bindings { entries: Vec::new() };
        assert(b.trail() =~= Seq::<Pair>::empty());
        b
    }

    /// Binds `name` to `value`, replacing what `name` was bound to.
    pub fn insert(&mut self, name: String, value: String)
        ensures
            final(self).trail() == old(self).trail().push((name@, value@)),
            final(self)@ == old(self)@.insert(name@, value@),
    {
        self.entries.push((name, value));
        proof {
            let after = self.trail();
            assert(after =~= old(self).trail().push((name@, value@)));
            assert(after.drop_last() =~= old(self).trail());
        }
    }

    /// The number of insertions made so far.
    pub fn depth(&self) -> (n: usize)
        ensures
            n == self.trail().len(),
    {
        self.entries.len()
    }

    /// Forgets every insertion after the first `depth` ones; with fewer
    /// insertions than that, nothing changes.
    pub fn rewind(&mut self, depth: usize)
        ensures
            final(self).trail() == if depth <= old(self).trail().len() {
                old(self).trail().take(depth as int)
            } else {
                old(self).trail()
            },
    {
        self.entries.truncate(depth);
        if depth <= self.entries.len() {
            assert(self.trail() =~= old(self).trail().take(depth as int));
        } else {
            assert(self.trail() =~= old(self).trail());
        }
    }

    /// The value bound to `name`, if any.
    pub fn get(&self, name: &String) -> (r: Option<&String>)
        ensures
            match r {
                Some(v) => self@.contains_key(name@) && self@[name@] == v@,
                None => !self@.contains_key(name@),
            },
    {
        let mut i: usize = self.entries.len();
        while i > 0
            invariant
                i <= self.entries@.len(),
                forall|j: int| i <= j < self.trail().len() ==> #[trigger] self.trail()[j].0 != name@,
            decreases i,
        {
            i -= 1;
            if self.entries[i].0 == *name {
                proof {
                    lemma_bound_latest(self.trail(), name@, i as int);
                }
                return Some(&self.entries[i].1);
            }
        }
        proof {
            lemma_bound_absent(self.trail(), name@);
        }
        None
    }

    /// A copy of the value bound to `name`, if any.
    pub fn lookup(&self, name: &str) -> (r: Option<String>)
        ensures
            match r {
                Some(v) => self@.contains_key(name@) && self@[name@] == v@,
                None => !self@.contains_key(name@),
            },
    {
        let key = name.to_owned();
        match self.get(&key) {
            Some(v) => Some(v.clone()),
            None => None,
        }
    }
}

} // verus!
