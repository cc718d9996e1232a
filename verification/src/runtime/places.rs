//! Where an entry that belongs to an instance stands in a list.
use crate::entity::InstanceId;
use crate::spatial::inst_key;
use crate::spatial::inst_key_of;
use crate::spatial::lemma_inst_key;
use std::collections::HashMap;
use vstd::prelude::*;

verus! {

broadcast use vstd::std_specs::hash::group_hash_axioms;

/// An instance, and the number of a calculation or of a field.
pub type Who = (u32, InstanceId);

/// The places of the entries of each instance, by its number.
pub struct Places {
    pub by_sub: HashMap<u128, Vec<(u32, usize)>>,
}

/// The place that a list gives for a calculation or a field.
pub open spec fn place_in(s: Seq<(u32, usize)>, c: u32) -> Option<usize>
    decreases s.len(),
{
    if s.len() == 0 {
        None
    } else if s.last().0 == c {
        Some(s.last().1)
    } else {
        place_in(s.drop_last(), c)
    }
}

impl Places {
    /// The place of an entry.
    pub open spec fn place(self, who: Who) -> Option<usize> {
        let k = inst_key(who.1);
        if self.by_sub@.contains_key(k) {
            place_in(self.by_sub@[k]@, who.0)
        } else {
            None
        }
    }

    /// The list has exactly these, each at its place.
    pub open spec fn indexes(self, list: Seq<Who>) -> bool {
        &&& forall|i: int| 0 <= i < list.len() ==> self.place(#[trigger] list[i]) == Some(i as usize)
        &&& forall|who: Who| (#[trigger] self.place(who)) is Some ==> self.place(who)->0 < list.len()
            && list[self.place(who)->0 as int] == who
    }

    pub fn new() -> (r: Places)
        ensures
            r.indexes(Seq::empty()),
    {
        Places { by_sub: HashMap::new() }
    }

    pub fn get(&self, who: Who) -> (r: Option<usize>)
        ensures
            r == self.place(who),
    {
        match self.by_sub.get(&inst_key_of(who.1)) {
            Some(v) => {
                let mut i: usize = v.len();
                assert(v@.take(i as int) =~= v@);
                while i > 0
                    invariant
                        i <= v@.len(),
                        self.place(who) == place_in(v@, who.0),
                        place_in(v@, who.0) == place_in(v@.take(i as int), who.0),
                    decreases i,
                {
                    proof {
                        let t = v@.take(i as int);
                        assert(t.drop_last() =~= v@.take(i - 1));
                        assert(t.last() == v@[i - 1]);
                    }
                    i = i - 1;
                    if v[i].0 == who.0 {
                        return Some(v[i].1);
                    }
                }
                None
            },
            None => None,
        }
    }

    /// A new one at the end of the list.
    pub fn put(&mut self, who: Who, i: usize, list: Ghost<Seq<Who>>)
        requires
            old(self).indexes(list@),
            i == list@.len(),
            old(self).place(who) is None,
        ensures
            final(self).indexes(list@.push(who)),
    {
        let ghost before = *self;
        let k = inst_key_of(who.1);
        let mut v: Vec<(u32, usize)> = match self.by_sub.remove(&k) {
            Some(v) => v,
            None => Vec::new(),
        };
        let ghost v0 = v@;
        v.push((who.0, i));
        let ghost v1 = v@;
        self.by_sub.insert(k, v);
        proof {
            assert(v1.drop_last() =~= v0);
            assert(self.by_sub@[k]@ == v1);
            assert forall|x: Who| #[trigger] self.place(x) == (if x == who {
                Some(i)
            } else {
                before.place(x)
            }) by {
                lemma_inst_key(x.1, who.1);
                if x.1 == who.1 {
                    assert(place_in(v1, x.0) == (if x.0 == who.0 {
                        Some(i)
                    } else {
                        place_in(v0, x.0)
                    }));
                    assert(before.place(x) == place_in(v0, x.0));
                }
            }
            let all = list@.push(who);
            assert forall|j: int| 0 <= j < all.len() implies self.place(#[trigger] all[j]) == Some(
                j as usize,
            ) by {
                if j < list@.len() {
                    assert(before.place(list@[j]) == Some(j as usize));
                }
            }
            assert forall|x: Who| (#[trigger] self.place(x)) is Some implies self.place(x)->0
                < all.len() && all[self.place(x)->0 as int] == x by {
                if x != who {
                    assert(before.place(x) is Some);
                }
            }
        }
    }
}

impl Clone for Places {
    fn clone(&self) -> (r: Places)
        ensures
            forall|list: Seq<Who>| self.indexes(list) ==> #[trigger] r.indexes(list),
    {
        let r = Places { by_sub: self.by_sub.clone() };
        proof {
            assert forall|x: Who| #[trigger] r.place(x) == self.place(x) by {}
            assert forall|list: Seq<Who>| self.indexes(list) implies #[trigger] r.indexes(list) by {
                assert forall|i: int| 0 <= i < list.len() implies r.place(#[trigger] list[i])
                    == Some(i as usize) by {
                    assert(self.place(list[i]) == Some(i as usize));
                }
            }
        }
        r
    }
}

}
