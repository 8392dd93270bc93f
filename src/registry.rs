use vstd::prelude::*;

verus! {

/// An append-only registry that gives each distinct tag name the index at
/// which it was first seen.
pub struct TagPool {
    pub tags: Vec<String>,
}

impl TagPool {
    /// The registered names, in order of first sight.
    pub open spec fn names(&self) -> Seq<Seq<char>> {
        self.tags@.map_values(|s: String| s@)
    }

    /// An empty registry.
    pub fn new() -> (r: TagPool)
        ensures
            r.names().len() == 0,
    {
        TagPool { tags: Vec::new() }
    }

    /// The index of `name`: the one it already has, or a new one at the end.
    pub fn lookup_or_register(&mut self, name: &String) -> (r: usize)
        ensures
            old(self).names().contains(name@) ==> final(self).names() == old(self).names()
                && r < old(self).names().len() && old(self).names()[r as int] == name@
                && forall|k: int| 0 <= k < r ==> old(self).names()[k] != name@,
            !old(self).names().contains(name@) ==> final(self).names() == old(self).names().push(
                name@,
            ) && r == old(self).names().len(),
    {
        let mut i: usize = 0;
        while i < self.tags.len()
            invariant
                i <= self.tags@.len(),
                *self == *old(self),
                forall|k: int| 0 <= k < i ==> self.names()[k] != name@,
            decreases self.tags@.len() - i,
        {
            if self.tags[i] == *name {
                proof {
                    assert(self.names()[i as int] == name@);
                    assert(old(self).names().contains(name@));
                }
                return i;
            }
            i = i + 1;
        }
        proof {
            assert(!self.names().contains(name@));
        }
        let idx = self.tags.len();
        self.tags.push(name.clone());
        proof {
            assert(self.names() =~= old(self).names().push(name@));
        }
        idx
    }
}

} // verus!
