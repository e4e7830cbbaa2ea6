use vstd::prelude::*;
use vstd::string::StringExecFns;

verus! {

/// The variables of a session: each name bound to its last assigned value.
/// Names are compared as exact text, case included.
pub struct Environment<V> {
    entries: Vec<(String, V)>,
}

impl<V: Copy> Environment<V> {
    /// Each name appears in at most one entry.
    pub closed spec fn wf(&self) -> bool {
        forall|i: int, j: int|
            0 <= i < j < self.entries@.len() ==> (#[trigger] self.entries@[i]).0@
                != (#[trigger] self.entries@[j]).0@
    }

    /// The bindings, as a map from name to value.
    pub closed spec fn view(&self) -> Map<Seq<char>, V> {
        Map::new(
            |k: Seq<char>| exists|i: int| 0 <= i < self.entries@.len() && (#[trigger] self.entries@[i]).0@ == k,
            |k: Seq<char>| self.entries@[choose|i: int| 0 <= i < self.entries@.len() && (#[trigger] self.entries@[i]).0@ == k].1,
        )
    }

    /// An environment with no variable in it.
    pub fn new() -> (r: Self)
        ensures
            r.wf(),
            r.view() == Map::<Seq<char>, V>::empty(),
    {
        let r = Environment { entries: Vec::new() };
        assert(r.view() =~= Map::<Seq<char>, V>::empty());
        r
    }

    fn position(&self, name: &str) -> (r: Option<usize>)
        requires
            self.wf(),
        ensures
            match r {
                Some(i) => i < self.entries@.len() && self.entries@[i as int].0@ == name@,
                None => !self.view().dom().contains(name@),
            },
    {
        let key = String::from_str(name);
        let mut i: usize = 0;
        while i < self.entries.len()
            invariant
                key@ == name@,
                i <= self.entries@.len(),
                forall|k: int| 0 <= k < i ==> (#[trigger] self.entries@[k]).0@ != name@,
            decreases self.entries@.len() - i,
        {
            if self.entries[i].0 == key {
                return Some(i);
            }
            i = i + 1;
        }
        None
    }

    /// The value last assigned to `name`, if any.
    pub fn get(&self, name: &str) -> (r: Option<V>)
        requires
            self.wf(),
        ensures
            r == (if self.view().dom().contains(name@) {
                Some(self.view()[name@])
            } else {
                None::<V>
            }),
    {
        match self.position(name) {
            Some(i) => {
                proof {
                    let k = choose|j: int| 0 <= j < self.entries@.len() && (#[trigger] self.entries@[j]).0@ == name@;
                    assert(k == i);
                }
                Some(self.entries[i].1)
            },
            None => None,
        }
    }

    /// Binds `name` to `value`, replacing any earlier value of it.
    pub fn assign(&mut self, name: &str, value: V)
        requires
            old(self).wf(),
        ensures
            final(self).wf(),
            final(self).view() == old(self).view().insert(name@, value),
    {
        let ghost before = self.view();
        match self.position(name) {
            Some(i) => {
                let key = String::from_str(name);
                self.entries.set(i, (key, value));
                proof {
                    assert(self.view() =~= before.insert(name@, value)) by {
                        assert forall|k: Seq<char>| #[trigger] self.view().dom().contains(k)
                            <==> before.insert(name@, value).dom().contains(k) by {
                            if before.dom().contains(k) && k != name@ {
                                let j = choose|j: int| 0 <= j < old(self).entries@.len() && (#[trigger] old(self).entries@[j]).0@ == k;
                                assert(self.entries@[j] == old(self).entries@[j]);
                            }
                            if self.view().dom().contains(k) {
                                let j = choose|j: int| 0 <= j < self.entries@.len() && (#[trigger] self.entries@[j]).0@ == k;
                                if j != i {
                                    assert(self.entries@[j] == old(self).entries@[j]);
                                }
                            }
                            if k == name@ {
                                assert(self.entries@[i as int].0@ == k);
                            }
                        }
                        assert forall|k: Seq<char>| #[trigger] self.view().dom().contains(k) implies
                            self.view()[k] == before.insert(name@, value)[k] by {
                            let j = choose|j: int| 0 <= j < self.entries@.len() && (#[trigger] self.entries@[j]).0@ == k;
                            if k == name@ {
                                assert(self.entries@[i as int].0@ == k);
                            } else {
                                assert(self.entries@[j] == old(self).entries@[j]);
                                let m = choose|m: int| 0 <= m < old(self).entries@.len() && (#[trigger] old(self).entries@[m]).0@ == k;
                                assert(old(self).entries@[m] == self.entries@[m]);
                            }
                        }
                    }
                }
            },
            None => {
                let key = String::from_str(name);
                self.entries.push((key, value));
                proof {
                    let n = old(self).entries@.len() as int;
                    assert(self.entries@[n].0@ == name@);
                    assert forall|k: int| 0 <= k < n implies #[trigger] self.entries@[k] == old(self).entries@[k] by {}
                    assert(self.view() =~= before.insert(name@, value)) by {
                        assert forall|k: Seq<char>| #[trigger] self.view().dom().contains(k)
                            <==> before.insert(name@, value).dom().contains(k) by {
                            if before.dom().contains(k) {
                                let j = choose|j: int| 0 <= j < n && (#[trigger] old(self).entries@[j]).0@ == k;
                                assert(self.entries@[j] == old(self).entries@[j]);
                            }
                            if self.view().dom().contains(k) && k != name@ {
                                let j = choose|j: int| 0 <= j < self.entries@.len() && (#[trigger] self.entries@[j]).0@ == k;
                                assert(self.entries@[j] == old(self).entries@[j]);
                            }
                        }
                        assert forall|k: Seq<char>| #[trigger] self.view().dom().contains(k) implies
                            self.view()[k] == before.insert(name@, value)[k] by {
                            let j = choose|j: int| 0 <= j < self.entries@.len() && (#[trigger] self.entries@[j]).0@ == k;
                            if k == name@ {
                                if j < n {
                                    assert(old(self).entries@[j].0@ == name@);
                                }
                                assert(j == n);
                            } else {
                                assert(self.entries@[j] == old(self).entries@[j]);
                                let m = choose|m: int| 0 <= m < n && (#[trigger] old(self).entries@[m]).0@ == k;
                                assert(old(self).entries@[m] == self.entries@[m]);
                            }
                        }
                    }
                }
            },
        }
    }
}

} // verus!
