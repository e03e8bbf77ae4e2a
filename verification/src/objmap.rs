//! A small map from addresses to kernel objects.
use vstd::prelude::*;

verus! {

/// Kernel objects, each found by its address.
///
/// The view is a mathematical map. Objects are never removed: memory that has
/// become an object stays one.
pub struct ObjMap<T> {
    keys: Vec<u64>,
    vals: Vec<T>,
}

impl<T> ObjMap<T> {
    pub closed spec fn wf(&self) -> bool {
        &&& self.keys@.len() == self.vals@.len()
        &&& self.keys@.no_duplicates()
    }

    /// The objects, by address.
    pub closed spec fn view(&self) -> Map<u64, T> {
        Map::new(
            |k: u64| self.keys@.contains(k),
            |k: u64| self.vals@[self.keys@.index_of(k)],
        )
    }

    /// The map that holds no object.
    pub fn new() -> (r: Self)
        ensures
            r.wf(),
            r@ == Map::<u64, T>::empty(),
    {
        let r = ObjMap { keys: Vec::new(), vals: Vec::new() };
        assert(r@ =~= Map::<u64, T>::empty());
        r
    }

    fn find(&self, key: u64) -> (r: Option<usize>)
        requires
            self.wf(),
        ensures
            match r {
                Some(i) => i < self.keys@.len() && self.keys@[i as int] == key
                    && self@.contains_key(key) && self@[key] == self.vals@[i as int],
                None => !self@.contains_key(key),
            },
    {
        let mut i: usize = 0;
        while i < self.keys.len()
            invariant
                self.wf(),
                i <= self.keys@.len(),
                forall|j: int| 0 <= j < i ==> self.keys@[j] != key,
            decreases self.keys@.len() - i,
        {
            if self.keys[i] == key {
                assert(self.keys@.contains(key));
                assert(self.keys@.index_of(key) == i);
                return Some(i);
            }
            i += 1;
        }
        None
    }

    /// Whether an object stands at `key`.
    pub fn contains(&self, key: u64) -> (r: bool)
        requires
            self.wf(),
        ensures
            r == self@.contains_key(key),
    {
        self.find(key).is_some()
    }

    /// The object at `key`.
    pub fn get(&self, key: u64) -> (r: &T)
        requires
            self.wf(),
            self@.contains_key(key),
        ensures
            *r == self@[key],
    {
        let i: usize = self.find(key).unwrap();
        &self.vals[i]
    }

    /// The object at `key`, to be changed in place.
    pub fn get_mut(&mut self, key: u64) -> (r: &mut T)
        requires
            old(self).wf(),
            old(self)@.contains_key(key),
        ensures
            *r == old(self)@[key],
            final(self).wf(),
            final(self)@ == old(self)@.insert(key, *final(r)),
    {
        let i: usize = self.find(key).unwrap();
        let ghost keys = self.keys@;
        proof {
            assert forall|k: u64| keys.contains(k) && k != key implies keys.index_of(k) != i by {
                assert(keys[keys.index_of(k)] == k);
            }
            assert(keys.index_of(key) == i);
        }
        let r = &mut self.vals[i];
        proof {
            assert(Map::new(
                |k: u64| keys.contains(k),
                |k: u64| old(self).vals@.update(i as int, *final(r))[keys.index_of(k)],
            ) =~= old(self)@.insert(key, *final(r)));
        }
        r
    }

    /// Puts `val` at `key`, in place of what may stand there.
    pub fn insert(&mut self, key: u64, val: T)
        requires
            old(self).wf(),
        ensures
            final(self).wf(),
            final(self)@ == old(self)@.insert(key, val),
    {
        match self.find(key) {
            Some(i) => {
                proof {
                    let keys = self.keys@;
                    assert forall|k: u64| keys.contains(k) && k != key implies keys.index_of(k)
                        != i by {
                        assert(keys[keys.index_of(k)] == k);
                    }
                    assert(keys.index_of(key) == i);
                }
                self.vals[i] = val;
                assert(self@ =~= old(self)@.insert(key, val));
            },
            None => {
                self.keys.push(key);
                self.vals.push(val);
                proof {
                    let before = old(self).keys@;
                    let after = self.keys@;
                    assert forall|k: u64| after.contains(k) implies k == key || before.contains(
                        k,
                    ) by {
                        let j = after.index_of(k);
                        assert(after[j] == k);
                        if j < before.len() {
                            assert(before[j] == k);
                        }
                    }
                    assert forall|k: u64| before.contains(k) implies after.contains(k)
                        && after.index_of(k) == before.index_of(k) by {
                        let j = before.index_of(k);
                        assert(after[j] == k);
                    }
                    assert(after[before.len() as int] == key);
                    assert(!before.contains(key));
                    assert(after.index_of(key) == before.len());
                    assert(after.no_duplicates());
                    assert(self@ =~= old(self)@.insert(key, val));
                }
            },
        }
    }
}

} // verus!
