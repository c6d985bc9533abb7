use vstd::prelude::*;

use crate::value::Value;

verus! {

/// A map from names to values.
pub struct Table {
    entries: Vec<(String, Value)>,
    map: Ghost<Map<Seq<char>, Value>>,
}

impl View for Table {
    type V = Map<Seq<char>, Value>;

    closed spec fn view(&self) -> Map<Seq<char>, Value> {
        self.map@
    }
}

impl Table {
    spec fn key(self, i: int) -> Seq<char> {
        self.entries@[i].0@
    }

    pub closed spec fn wf(self) -> bool {
        &&& forall|i: int, j: int|
            0 <= i < self.entries@.len() && 0 <= j < self.entries@.len() && i != j ==> #[trigger] self.key(i)
                != #[trigger] self.key(j)
        &&& forall|i: int|
            0 <= i < self.entries@.len() ==> self.map@.dom().contains(#[trigger] self.key(i))
                && self.map@[self.key(i)] == self.entries@[i].1
        &&& forall|k: Seq<char>|
            #[trigger] self.map@.dom().contains(k) ==> exists|i: int|
                0 <= i < self.entries@.len() && #[trigger] self.key(i) == k
        &&& self.map@.dom().finite()
        &&& self.map@.dom().len() == self.entries@.len()
    }

    /// The values, in the table's own order.
    pub closed spec fn spec_values(self) -> Seq<Value> {
        self.entries@.map_values(|e: (String, Value)| e.1)
    }

    pub fn new() -> (t: Self)
        ensures
            t.wf(),
            t@ == Map::<Seq<char>, Value>::empty(),
    {
        let ghost m = Map::<Seq<char>, Value>::empty();
        Table { entries: Vec::new(), map: Ghost(m) }
    }

    fn position(&self, key: &String) -> (r: Option<usize>)
        requires
            self.wf(),
        ensures
            r is None ==> !self@.dom().contains(key@),
            r matches Some(i) ==> i < self.entries@.len() && self.key(i as int) == key@,
    {
        let mut i: usize = 0;
        while i < self.entries.len()
            invariant
                self.wf(),
                i <= self.entries@.len(),
                forall|j: int| 0 <= j < i ==> self.key(j) != key@,
            decreases self.entries@.len() - i,
        {
            if self.entries[i].0 == *key {
                return Some(i);
            }
            i = i + 1;
        }
        proof {
            if self@.dom().contains(key@) {
                let j = choose|j: int| 0 <= j < self.entries@.len() && #[trigger] self.key(j) == key@;
            }
        }
        None
    }

    /// Sets `key` to `value`; gives back the value it had, if any.
    pub fn insert(&mut self, key: String, value: Value) -> (r: Option<Value>)
        requires
            old(self).wf(),
        ensures
            final(self).wf(),
            final(self)@ == old(self)@.insert(key@, value),
            r == (if old(self)@.dom().contains(key@) {
                Some(old(self)@[key@])
            } else {
                None::<Value>
            }),
    {
        let ghost k = key@;
        match self.position(&key) {
            Some(i) => {
                let old_value = self.entries[i].1;
                let ghost before = *self;
                self.entries.set(i, (key, value));
                self.map = Ghost(self.map@.insert(k, value));
                assert forall|j: int| 0 <= j < self.entries@.len() && j != i implies self.key(j)
                    == before.key(j) by {}
                assert forall|a: int, b: int|
                    0 <= a < self.entries@.len() && 0 <= b < self.entries@.len() && a
                        != b implies #[trigger] self.key(a) != #[trigger] self.key(b) by {
                    assert(before.key(a) != before.key(b));
                }
                assert forall|a: int| 0 <= a < self.entries@.len() implies self.map@.dom().contains(
                    #[trigger] self.key(a),
                ) && self.map@[self.key(a)] == self.entries@[a].1 by {
                    if a != i {
                        assert(before.key(a) != before.key(i as int));
                    }
                }
                assert forall|kk: Seq<char>| #[trigger] self.map@.dom().contains(kk) implies exists|a: int|
                    0 <= a < self.entries@.len() && #[trigger] self.key(a) == kk by {
                    if kk != k {
                        let a = choose|a: int|
                            0 <= a < before.entries@.len() && #[trigger] before.key(a) == kk;
                        assert(self.key(a) == kk);
                    } else {
                        assert(self.key(i as int) == kk);
                    }
                }
                assert(self.map@.dom() =~= before.map@.dom());
                Some(old_value)
            },
            None => {
                let ghost before = *self;
                self.entries.push((key, value));
                self.map = Ghost(self.map@.insert(k, value));
                let ghost n = before.entries@.len();
                assert(self.key(n as int) == k);
                assert forall|j: int| 0 <= j < n implies self.key(j) == before.key(j) by {}
                assert forall|a: int, b: int|
                    0 <= a < self.entries@.len() && 0 <= b < self.entries@.len() && a
                        != b implies #[trigger] self.key(a) != #[trigger] self.key(b) by {
                    if a < n && b < n {
                        assert(before.key(a) != before.key(b));
                    } else if a < n {
                        assert(before.map@.dom().contains(before.key(a)));
                    } else {
                        assert(before.map@.dom().contains(before.key(b)));
                    }
                }
                assert forall|a: int| 0 <= a < self.entries@.len() implies self.map@.dom().contains(
                    #[trigger] self.key(a),
                ) && self.map@[self.key(a)] == self.entries@[a].1 by {
                    if a < n {
                        assert(before.map@.dom().contains(before.key(a)));
                        assert(before.key(a) != k);
                    }
                }
                assert forall|kk: Seq<char>| #[trigger] self.map@.dom().contains(kk) implies exists|a: int|
                    0 <= a < self.entries@.len() && #[trigger] self.key(a) == kk by {
                    if kk != k {
                        let a = choose|a: int|
                            0 <= a < before.entries@.len() && #[trigger] before.key(a) == kk;
                        assert(self.key(a) == kk);
                    } else {
                        assert(self.key(n as int) == kk);
                    }
                }
                assert(self.map@.dom() =~= before.map@.dom().insert(k));
                None
            },
        }
    }

    /// The value of `key`, if there is one.
    pub fn find(&self, key: &str) -> (r: Option<Value>)
        requires
            self.wf(),
        ensures
            r == (if self@.dom().contains(key@) {
                Some(self@[key@])
            } else {
                None::<Value>
            }),
    {
        let k = key.to_string();
        match self.position(&k) {
            Some(i) => Some(self.entries[i].1),
            None => None,
        }
    }

    /// Removes `key`; gives back the value it had, if any.
    pub fn remove(&mut self, key: &String) -> (r: Option<Value>)
        requires
            old(self).wf(),
        ensures
            final(self).wf(),
            final(self)@ == old(self)@.remove(key@),
            r == (if old(self)@.dom().contains(key@) {
                Some(old(self)@[key@])
            } else {
                None::<Value>
            }),
    {
        let ghost k = key@;
        match self.position(key) {
            Some(i) => {
                let ghost before = *self;
                let ghost n = before.entries@.len();
                let (_, old_value) = self.entries.swap_remove(i);
                self.map = Ghost(self.map@.remove(k));
                assert forall|j: int| 0 <= j < self.entries@.len() implies #[trigger] self.key(j)
                    == (if j == i {
                    before.key(n - 1)
                } else {
                    before.key(j)
                }) by {}
                assert forall|a: int, b: int|
                    0 <= a < self.entries@.len() && 0 <= b < self.entries@.len() && a
                        != b implies #[trigger] self.key(a) != #[trigger] self.key(b) by {
                    let a0 = if a == i {
                        n - 1
                    } else {
                        a
                    };
                    let b0 = if b == i {
                        n - 1
                    } else {
                        b
                    };
                    assert(before.key(a0) != before.key(b0));
                }
                assert forall|a: int| 0 <= a < self.entries@.len() implies self.map@.dom().contains(
                    #[trigger] self.key(a),
                ) && self.map@[self.key(a)] == self.entries@[a].1 by {
                    let a0 = if a == i {
                        n - 1
                    } else {
                        a
                    };
                    assert(before.key(a0) != before.key(i as int));
                    assert(before.map@.dom().contains(before.key(a0)));
                }
                assert forall|kk: Seq<char>| #[trigger] self.map@.dom().contains(kk) implies exists|a: int|
                    0 <= a < self.entries@.len() && #[trigger] self.key(a) == kk by {
                    let a = choose|a: int|
                        0 <= a < before.entries@.len() && #[trigger] before.key(a) == kk;
                    if a == n - 1 {
                        assert(self.key(i as int) == kk);
                    } else {
                        assert(self.key(a) == kk);
                    }
                }
                assert(self.map@.dom() =~= before.map@.dom().remove(k));
                Some(old_value)
            },
            None => {
                assert(self.map@.remove(k) =~= self.map@);
                None
            },
        }
    }

    /// Number of names in the table.
    pub fn len(&self) -> (n: usize)
        requires
            self.wf(),
        ensures
            n == self@.dom().len(),
    {
        self.entries.len()
    }

    /// The `i`-th value in the table's own order.
    pub fn value_at(&self, i: usize) -> (v: Value)
        requires
            self.wf(),
            i < self@.dom().len(),
        ensures
            v == self.spec_values()[i as int],
    {
        self.entries[i].1
    }

    /// `v` is the value of some name in the table.
    pub open spec fn holds_value(self, v: Value) -> bool {
        exists|k: Seq<char>| #[trigger] self@.dom().contains(k) && self@[k] == v
    }

    /// The values in the table's order are exactly the values of its names.
    pub proof fn lemma_values(self)
        requires
            self.wf(),
        ensures
            self.spec_values().len() == self@.dom().len(),
            forall|i: int|
                0 <= i < self.spec_values().len() ==> self.holds_value(
                    #[trigger] self.spec_values()[i],
                ),
            forall|k: Seq<char>|
                #[trigger] self@.dom().contains(k) ==> exists|i: int|
                    0 <= i < self.spec_values().len() && #[trigger] self.spec_values()[i] == self@[k],
    {
        assert forall|i: int| 0 <= i < self.spec_values().len() implies self.holds_value(
            #[trigger] self.spec_values()[i],
        ) by {
            assert(self.map@.dom().contains(self.key(i)));
            assert(self.spec_values()[i] == self.entries@[i].1);
            assert(self@.dom().contains(self.key(i)) && self@[self.key(i)] == self.spec_values()[i]);
        }
        assert forall|k: Seq<char>| #[trigger] self@.dom().contains(k) implies exists|i: int|
            0 <= i < self.spec_values().len() && #[trigger] self.spec_values()[i] == self@[k] by {
            let i = choose|i: int| 0 <= i < self.entries@.len() && #[trigger] self.key(i) == k;
            assert(self.spec_values()[i] == self@[k]);
        }
    }
}

} // verus!
