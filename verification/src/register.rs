//! Registers keyed by a number.
//!
//! A dashmap index finds the row of a number; the rows themselves stand in a list.

use vstd::prelude::*;

verus! {

/// The row each number is filed under.
pub uninterp spec fn slots_in(index: dashmap::DashMap<u128, usize>) -> Map<u128, usize>;

/// `DashMap::new`: an empty map.
#[verifier::external_body]
fn new_slots() -> (r: dashmap::DashMap<u128, usize>)
    ensures
        (slots_in(r) == Map::<u128, usize>::empty()),
{
    dashmap::DashMap::new()
}

/// `DashMap::get`: the value filed under the key.
#[verifier::external_body]
fn slot_get(index: &dashmap::DashMap<u128, usize>, key: u128) -> (r: Option<usize>)
    ensures
        r == if slots_in(*index).contains_key(key) {
            Some(slots_in(*index)[key])
        } else {
            None
        },
{
    index.get(&key).map(|entry| *entry.value())
}

/// `DashMap::insert`: files the value under the key, in place of an earlier one.
#[verifier::external_body]
fn slot_insert(index: &mut dashmap::DashMap<u128, usize>, key: u128, row: usize)
    ensures
        slots_in(*final(index)) == slots_in(*old(index)).insert(key, row),
{
    index.insert(key, row);
}

/// `DashMap::remove`: takes the value filed under the key out of the map.
#[verifier::external_body]
fn slot_remove(index: &mut dashmap::DashMap<u128, usize>, key: u128) -> (r: Option<usize>)
    ensures
        slots_in(*final(index)) == slots_in(*old(index)).remove(key),
        r == if slots_in(*old(index)).contains_key(key) {
            Some(slots_in(*old(index))[key])
        } else {
            None
        },
{
    index.remove(&key).map(|entry| entry.1)
}

/// `DashMap::len`: how many keys there are.
#[verifier::external_body]
fn slot_len(index: &dashmap::DashMap<u128, usize>) -> (r: usize)
    ensures
        r == slots_in(*index).dom().len(),
{
    index.len()
}

/// Rows under numbers.
pub struct Register<T> {
    index: dashmap::DashMap<u128, usize>,
    keys: Vec<u128>,
    rows: Vec<T>,
}

impl<T> View for Register<T> {
    type V = Map<u128, T>;

    closed spec fn view(&self) -> Map<u128, T> {
        Map::new(
            |key: u128| slots_in(self.index).contains_key(key),
            |key: u128| self.rows@[slots_in(self.index)[key] as int],
        )
    }
}

impl<T> Register<T> {
    /// The number of the row at `i`.
    pub closed spec fn key(&self, i: int) -> u128 {
        self.keys@[i]
    }

    /// How many rows there are.
    pub closed spec fn size(&self) -> nat {
        self.rows@.len()
    }

    /// What holds of every register: the index and the rows agree.
    pub closed spec fn wf(&self) -> bool {
        let index = slots_in(self.index);
        &&& self.keys@.len() == self.rows@.len()
        &&& forall|i: int|
            0 <= i < self.keys@.len() ==> index.contains_key(#[trigger] self.key(i))
                && index[self.key(i)] == i
        &&& forall|key: u128| #[trigger]
            index.contains_key(key) ==> index[key] < self.rows@.len() && self.key(
                index[key] as int,
            ) == key
    }

    /// Every row stands under its number, every number has a row, and no two rows share one.
    pub proof fn lemma_wf(&self)
        requires
            self.wf(),
        ensures
            forall|i: int| 0 <= i < self.size() ==> self@.contains_key(#[trigger] self.key(i)),
            forall|i: int, j: int|
                0 <= i < self.size() && 0 <= j < self.size() && #[trigger] self.key(i)
                    == #[trigger] self.key(j) ==> i == j,
            forall|key: u128| #[trigger]
                self@.contains_key(key) ==> exists|i: int|
                    0 <= i < self.size() && #[trigger] self.key(i) == key,
    {
        let index = slots_in(self.index);
        assert forall|key: u128| #[trigger] self@.contains_key(key) implies exists|i: int|
            0 <= i < self.size() && #[trigger] self.key(i) == key by {
            assert(index.contains_key(key));
            assert(self.key(index[key] as int) == key);
        }
    }

    /// An empty register.
    pub fn new() -> (r: Self)
        ensures
            r.wf(),
            r@ == Map::<u128, T>::empty(),
            r.size() == 0,
    {
        let r = Register { index: new_slots(), keys: Vec::new(), rows: Vec::new() };
        assert(r@ =~= Map::<u128, T>::empty());
        r
    }

    /// How many numbers there are.
    pub fn len(&self) -> (r: usize)
        ensures
            r == self@.dom().len(),
    {
        assert(self@.dom() =~= slots_in(self.index).dom());
        slot_len(&self.index)
    }

    /// How many rows there are.
    pub fn count(&self) -> (r: usize)
        ensures
            r == self.size(),
    {
        self.rows.len()
    }

    /// The row under a number.
    pub fn get(&self, key: u128) -> (r: Option<&T>)
        requires
            self.wf(),
        ensures
            match r {
                Some(row) => self@.contains_key(key) && self@[key] == *row,
                None => !self@.contains_key(key),
            },
    {
        match slot_get(&self.index, key) {
            Some(row) => Some(&self.rows[row]),
            None => None,
        }
    }

    /// The row under a number, to be changed in place.
    pub fn get_mut(&mut self, key: u128) -> (r: Option<&mut T>)
        requires
            old(self).wf(),
        ensures
            final(self).wf(),
            match r {
                Some(row) => {
                    &&& old(self)@.contains_key(key)
                    &&& *row == old(self)@[key]
                    &&& final(self)@ == old(self)@.insert(key, *final(row))
                    &&& final(self).size() == old(self).size()
                    &&& forall|i: int| #[trigger] final(self).key(i) == old(self).key(i)
                },
                None => !old(self)@.contains_key(key) && *final(self) == *old(self),
            },
    {
        match slot_get(&self.index, key) {
            Some(row) => {
                let ghost before = *self;
                let r = &mut self.rows[row];
                proof {
                    let after = after_borrow(self);
                    assert(slots_in(before.index).contains_key(key));
                    assert(before.key(slots_in(before.index)[key] as int) == key);
                    assert(after.rows@ == before.rows@.update(row as int, *final(r)));
                    assert forall|i: int| #[trigger] after.key(i) == before.key(i) by {}
                    assert forall|other: u128| #[trigger] after@.contains_key(other) implies after@[other]
                        == before@.insert(key, *final(r))[other] by {
                        assert(slots_in(before.index).contains_key(other));
                        assert(before.key(slots_in(before.index)[other] as int) == other);
                    }
                    assert(after@ =~= before@.insert(key, *final(r)));
                }
                Some(r)
            },
            None => None,
        }
    }

    /// The row at `i`.
    pub fn row(&self, i: usize) -> (r: &T)
        requires
            self.wf(),
            i < self.size(),
        ensures
            self@.contains_key(self.key(i as int)),
            *r == self@[self.key(i as int)],
    {
        assert(slots_in(self.index).contains_key(self.key(i as int)));
        &self.rows[i]
    }

    /// The number of the row at `i`.
    pub fn key_of(&self, i: usize) -> (r: u128)
        requires
            self.wf(),
            i < self.size(),
        ensures
            r == self.key(i as int),
    {
        self.keys[i]
    }

    /// File a row under a number, in place of an earlier one.
    pub fn put(&mut self, key: u128, row: T)
        requires
            old(self).wf(),
        ensures
            final(self).wf(),
            final(self)@ == old(self)@.insert(key, row),
    {
        let ghost before = *self;
        match slot_get(&self.index, key) {
            Some(at) => {
                self.rows.set(at, row);
                proof {
                    assert forall|i: int| #[trigger] self.key(i) == before.key(i) by {}
                    assert(self@ =~= before@.insert(key, row));
                }
            },
            None => {
                let at: usize = self.rows.len();
                slot_insert(&mut self.index, key, at);
                self.keys.push(key);
                self.rows.push(row);
                proof {
                    let index = slots_in(self.index);
                    let earlier = slots_in(before.index);
                    assert forall|i: int| 0 <= i < before.keys@.len() implies #[trigger] self.key(
                        i,
                    ) == before.key(i) by {}
                    assert(self.key(at as int) == key);
                    assert forall|i: int| 0 <= i < self.keys@.len() implies index.contains_key(
                        #[trigger] self.key(i),
                    ) && index[self.key(i)] == i by {
                        if i < before.keys@.len() {
                            assert(earlier.contains_key(before.key(i)));
                        }
                    }
                    assert forall|other: u128| #[trigger]
                        index.contains_key(other) implies index[other] < self.rows@.len()
                        && self.key(index[other] as int) == other by {
                        if other != key {
                            assert(earlier.contains_key(other));
                        }
                    }
                    assert forall|other: u128| #[trigger]
                        self@.contains_key(other) implies self@[other] == before@.insert(
                        key,
                        row,
                    )[other] by {
                        if other != key {
                            assert(earlier.contains_key(other));
                        }
                    }
                    assert(self@ =~= before@.insert(key, row));
                }
            },
        }
    }

    /// Take the row under a number out of the register. The last row takes its place.
    pub fn remove(&mut self, key: u128) -> (r: Option<T>)
        requires
            old(self).wf(),
        ensures
            final(self).wf(),
            final(self)@ == old(self)@.remove(key),
            match r {
                Some(row) => {
                    &&& old(self)@.contains_key(key)
                    &&& old(self)@[key] == row
                    &&& final(self).size() == old(self).size() - 1
                },
                None => !old(self)@.contains_key(key) && final(self).size() == old(
                    self,
                ).size(),
            },
    {
        let ghost before = *self;
        match slot_remove(&mut self.index, key) {
            Some(at) => {
                let ghost last = before.rows@.len() - 1;
                assert(before.key(at as int) == key);
                let row = self.rows.swap_remove(at);
                let _ = self.keys.swap_remove(at);
                proof {
                    assert forall|i: int| 0 <= i < self.keys@.len() implies #[trigger] self.key(i)
                        == before.key(if i == at { last } else { i }) by {}
                }
                if at < self.keys.len() {
                    let moved: u128 = self.keys[at];
                    slot_insert(&mut self.index, moved, at);
                }
                proof {
                    let index = slots_in(self.index);
                    let earlier = slots_in(before.index);
                    assert(earlier.contains_key(before.key(last)));
                    assert forall|i: int| 0 <= i < self.keys@.len() implies index.contains_key(
                        #[trigger] self.key(i),
                    ) && index[self.key(i)] == i by {
                        let source = if i == at { last } else { i };
                        assert(earlier.contains_key(before.key(source)));
                        assert(earlier[before.key(source)] == source);
                    }
                    assert forall|other: u128| #[trigger]
                        index.contains_key(other) implies index[other] < self.rows@.len()
                        && self.key(index[other] as int) == other by {
                        assert(earlier.contains_key(other));
                        assert(before.key(earlier[other] as int) == other);
                    }
                    assert forall|other: u128| self@.contains_key(other)
                        == #[trigger] before@.remove(key).contains_key(other) by {
                        if earlier.contains_key(other) {
                            assert(before.key(earlier[other] as int) == other);
                        }
                    }
                    assert forall|other: u128| #[trigger]
                        self@.contains_key(other) implies self@[other] == before@.remove(
                        key,
                    )[other] by {
                        assert(earlier.contains_key(other));
                        assert(before.key(earlier[other] as int) == other);
                    }
                    assert(self@ =~= before@.remove(key));
                }
                Some(row)
            },
            None => {
                assert(slots_in(self.index) =~= slots_in(before.index));
                assert forall|i: int| #[trigger] self.key(i) == before.key(i) by {}
                assert(self@ =~= before@.remove(key));
                None
            },
        }
    }
}

} // verus!
