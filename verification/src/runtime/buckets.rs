//! The constants that one path is compared with, found by a number of the constant.
use crate::calculation::CalcId;
use crate::runtime::index::bucket_fires;
use crate::runtime::index::collect;
use crate::runtime::index::key_of;
use crate::runtime::index::key_same;
use crate::runtime::index::lemma_collect_none;
use crate::runtime::index::lemma_collect_prefix;
use crate::runtime::index::lemma_take_step;
use crate::runtime::index::Hit;
use crate::runtime::index::KeyModel;
use crate::runtime::index::VKey;
use crate::spatial::inst_key;
use crate::spatial::inst_key_of;
use crate::value::Val;
use std::collections::HashMap;
use vstd::prelude::*;

verus! {

broadcast use vstd::std_specs::hash::group_hash_axioms;

/// A subscription found by a constant.
pub struct BucketEntry {
    pub key: VKey,
    pub calc: CalcId,
    pub group: u32,
}

/// The constants that one path is compared with.
pub struct PathBuckets {
    pub path: Vec<String>,
    pub entries: Vec<BucketEntry>,
    /// Where the entries with a number stand, in order.
    pub slots: HashMap<u128, Vec<usize>>,
}

/// A number of a constant. Texts share one where length and first letter agree.
pub open spec fn digest(k: KeyModel) -> u128 {
    match k {
        KeyModel::Null => 0,
        KeyModel::Num(i) => (i + 0x8000_0000_0000_0001) as u128,
        KeyModel::Str(s) => if s.len() == 0 {
            0
        } else {
            (s.len() * 0x1_0000_0000 + (s[0] as u32)) as u128
        },
        KeyModel::Ref(r) => inst_key(r),
    }
}

fn digest_of(k: &VKey) -> (r: u128)
    ensures
        r == digest(k@),
{
    match k {
        VKey::Null => 0,
        VKey::Num(i) => (*i as i128 + 0x8000_0000_0000_0001) as u128,
        VKey::Str(s) => {
            let t = s.as_str();
            let n = t.unicode_len();
            if n == 0 {
                0
            } else {
                n as u128 * 0x1_0000_0000 + (t.get_char(0) as u32) as u128
            }
        },
        VKey::Ref(r) => inst_key_of(*r),
    }
}

impl PathBuckets {
    /// Where the entries with a number stand.
    pub open spec fn slot(self, d: u128) -> Seq<usize> {
        if self.slots@.contains_key(d) {
            self.slots@[d]@
        } else {
            Seq::empty()
        }
    }

    /// Every entry is listed under its number, in order.
    pub open spec fn wf(self) -> bool {
        &&& forall|d: u128, x: int, y: int|
            0 <= x < y < self.slot(d).len() ==> #[trigger] self.slot(d)[x] < #[trigger] self.slot(
                d,
            )[y]
        &&& forall|d: u128, x: int|
            0 <= x < self.slot(d).len() ==> (#[trigger] self.slot(d)[x]) < self.entries@.len()
        &&& forall|j: int|
            0 <= j < self.entries@.len() ==> self.slot(
                digest((#[trigger] self.entries@[j]).key@),
            ).contains(j as usize)
    }

    pub fn new(path: Vec<String>) -> (r: PathBuckets)
        ensures
            r.wf(),
            r.path == path,
            r.entries@.len() == 0,
    {
        PathBuckets { path, entries: Vec::new(), slots: HashMap::new() }
    }

    /// Adds an entry at the end.
    pub fn add(&mut self, e: BucketEntry)
        requires
            old(self).wf(),
        ensures
            final(self).wf(),
            final(self).path == old(self).path,
            final(self).entries@ == old(self).entries@.push(e),
    {
        let ghost before = *self;
        let d = digest_of(&e.key);
        let n = self.entries.len();
        let mut v: Vec<usize> = match self.slots.remove(&d) {
            Some(v) => v,
            None => Vec::new(),
        };
        let ghost v0 = v@;
        v.push(n);
        let ghost v1 = v@;
        self.slots.insert(d, v);
        self.entries.push(e);
        proof {
            assert(v0 =~= before.slot(d));
            assert forall|c: u128| #[trigger] self.slot(c) == (if c == d {
                v1
            } else {
                before.slot(c)
            }) by {}
            assert forall|c: u128, x: int, y: int| 0 <= x < y < self.slot(c).len() implies
                #[trigger] self.slot(c)[x] < #[trigger] self.slot(c)[y] by {
                if c == d {
                    assert(before.slot(c)[x] < n);
                    if y < v0.len() {
                        assert(before.slot(c)[x] < before.slot(c)[y]);
                    }
                } else {
                    assert(before.slot(c)[x] < before.slot(c)[y]);
                }
            }
            assert forall|c: u128, x: int| 0 <= x < self.slot(c).len() implies (
            #[trigger] self.slot(c)[x]) < self.entries@.len() by {
                if c != d || x < v0.len() {
                    assert(before.slot(c)[x] < before.entries@.len());
                }
            }
            assert forall|j: int| 0 <= j < self.entries@.len() implies self.slot(
                digest((#[trigger] self.entries@[j]).key@),
            ).contains(j as usize) by {
                let c = digest(self.entries@[j].key@);
                if j < n {
                    assert(before.entries@[j] == self.entries@[j]);
                    assert(before.slot(c).contains(j as usize));
                    let x = choose|x: int|
                        0 <= x < before.slot(c).len() && before.slot(c)[x] == j as usize;
                    assert(self.slot(c)[x] == j as usize);
                } else {
                    assert(v1[v0.len() as int] == n);
                }
            }
        }
    }

    /// Lists the entries with the key of a value.
    pub fn probe(&self, k: &VKey, v: Ghost<Val>, out: &mut Vec<Hit>)
        requires
            self.wf(),
            key_of(v@) == Some(k@),
        ensures
            final(out)@ == old(out)@ + collect(self.entries@, bucket_fires(v@)),
    {
        let ghost part = out@;
        let ghost f = bucket_fires(v@);
        let ghost es = self.entries@;
        let d = digest_of(k);
        let ghost slot = self.slot(d);
        proof {
            assert forall|j: int| 0 <= j < es.len() && f(#[trigger] es[j]) is Some implies
                slot.contains(j as usize) by {
                assert(self.slot(digest(self.entries@[j].key@)).contains(j as usize));
            }
        }
        match self.slots.get(&d) {
            None => {
                proof {
                    assert forall|j: int| 0 <= j < es.len() implies f(#[trigger] es[j]) is None by {
                        assert(!slot.contains(j as usize));
                    }
                    lemma_collect_none(es, f);
                    assert(out@ =~= part + collect(es, f));
                }
            },
            Some(list) => {
                let mut x: usize = 0;
                let ghost mut bound: int = 0;
                assert(out@ =~= part + collect(es.take(0), f));
                while x < list.len()
                    invariant
                        self.wf(),
                        es == self.entries@,
                        slot == self.slot(d),
                        list@ == slot,
                        f == bucket_fires(v@),
                        key_of(v@) == Some(k@),
                        x <= list@.len(),
                        0 <= bound <= es.len(),
                        bound == (if x == 0 {
                            0
                        } else {
                            slot[x - 1] + 1
                        }),
                        forall|j: int|
                            0 <= j < es.len() && f(#[trigger] es[j]) is Some ==> slot.contains(
                                j as usize,
                            ),
                        out@ == part + collect(es.take(bound), f),
                    decreases list@.len() - x,
                {
                    let p = list[x];
                    proof {
                        assert(self.slot(d)[x as int] < self.entries@.len());
                        let t = es.take(p as int);
                        assert(bound <= p) by {
                            if x > 0 {
                                assert(self.slot(d)[x - 1] < self.slot(d)[x as int]);
                            }
                        }
                        assert forall|j: int| bound <= j < t.len() implies f(
                            #[trigger] t[j],
                        ) is None by {
                            assert(t[j] == es[j]);
                            if f(es[j]) is Some {
                                let y = choose|y: int| 0 <= y < slot.len() && slot[y] == j as usize;
                                if y < x {
                                    if y < x - 1 {
                                        assert(self.slot(d)[y] < self.slot(d)[x - 1]);
                                    }
                                } else if y > x {
                                    assert(self.slot(d)[x as int] < self.slot(d)[y]);
                                }
                            }
                        }
                        lemma_collect_prefix(t, bound, f);
                        assert(t.take(bound) =~= es.take(bound));
                        lemma_take_step(es, p as int, f);
                    }
                    let e = &self.entries[p];
                    if key_same(&e.key, k) {
                        out.push(Hit { calc: e.calc, group: e.group, sub: None });
                    }
                    proof {
                        bound = p + 1;
                        assert(out@ =~= part + collect(es.take(bound), f));
                    }
                    x = x + 1;
                }
                let n = self.entries.len();
                proof {
                    assert(n == es.len());
                    assert forall|j: int| bound <= j < es.len() implies f(
                        #[trigger] es[j],
                    ) is None by {
                        if f(es[j]) is Some {
                            assert(slot.contains(j as usize));
                            let y = choose|y: int| 0 <= y < slot.len() && slot[y] == j as usize;
                            assert(y <= x - 1);
                            if y < x - 1 {
                                assert(self.slot(d)[y] < self.slot(d)[x - 1]);
                            }
                        }
                    }
                    lemma_collect_prefix(es, bound, f);
                }
            },
        }
    }
}

}
