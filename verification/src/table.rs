//! Tables keyed by a namespace and a key within it.
//!
//! A dashmap index finds the row of a name; the rows themselves stand in a list.

use vstd::prelude::*;

verus! {

/// dashmap's concurrent map.
#[verifier::external_type_specification]
#[verifier::external_body]
#[verifier::reject_recursive_types(K)]
#[verifier::reject_recursive_types(V)]
#[verifier::reject_recursive_types(S)]
pub struct ExDashMap<K, V, S>(dashmap::DashMap<K, V, S>);

/// The row each name is filed under.
pub uninterp spec fn rows_in(index: dashmap::DashMap<(String, String), usize>) -> Map<
    (Seq<char>, Seq<char>),
    usize,
>;

/// `DashMap::new`: an empty map.
#[verifier::external_body]
fn new_index() -> (r: dashmap::DashMap<(String, String), usize>)
    ensures
        (rows_in(r) == Map::<(Seq<char>, Seq<char>), usize>::empty()),
{
    dashmap::DashMap::new()
}

/// `DashMap::get`: the value filed under an equal key.
#[verifier::external_body]
fn index_get(
    index: &dashmap::DashMap<(String, String), usize>,
    namespace: &str,
    key: &str,
) -> (r: Option<usize>)
    ensures
        r == if rows_in(*index).contains_key((namespace@, key@)) {
            Some(rows_in(*index)[(namespace@, key@)])
        } else {
            None
        },
{
    index.get(&(namespace.to_owned(), key.to_owned())).map(|entry| *entry.value())
}

/// `DashMap::insert`: files the value under the key, in place of an earlier one.
#[verifier::external_body]
fn index_insert(
    index: &mut dashmap::DashMap<(String, String), usize>,
    namespace: &str,
    key: &str,
    row: usize,
)
    ensures
        rows_in(*final(index)) == rows_in(*old(index)).insert((namespace@, key@), row),
{
    index.insert((namespace.to_owned(), key.to_owned()), row);
}

/// `DashMap::remove`: takes the value filed under an equal key out of the map.
#[verifier::external_body]
fn index_remove(
    index: &mut dashmap::DashMap<(String, String), usize>,
    namespace: &str,
    key: &str,
) -> (r: Option<usize>)
    ensures
        rows_in(*final(index)) == rows_in(*old(index)).remove((namespace@, key@)),
        r == if rows_in(*old(index)).contains_key((namespace@, key@)) {
            Some(rows_in(*old(index))[(namespace@, key@)])
        } else {
            None
        },
{
    index.remove(&(namespace.to_owned(), key.to_owned())).map(|entry| entry.1)
}

/// `DashMap::len`: how many keys there are.
#[verifier::external_body]
fn index_len(index: &dashmap::DashMap<(String, String), usize>) -> (r: usize)
    ensures
        r == rows_in(*index).dom().len(),
{
    index.len()
}

/// Rows under names.
pub struct Table<T> {
    index: dashmap::DashMap<(String, String), usize>,
    names: Vec<(String, String)>,
    rows: Vec<T>,
}

impl<T> View for Table<T> {
    type V = Map<(Seq<char>, Seq<char>), T>;

    closed spec fn view(&self) -> Map<(Seq<char>, Seq<char>), T> {
        Map::new(
            |name: (Seq<char>, Seq<char>)| rows_in(self.index).contains_key(name),
            |name: (Seq<char>, Seq<char>)| self.rows@[rows_in(self.index)[name] as int],
        )
    }
}

impl<T> Table<T> {
    /// The name of the row at `i`.
    pub closed spec fn name(&self, i: int) -> (Seq<char>, Seq<char>) {
        (self.names@[i].0@, self.names@[i].1@)
    }

    /// How many rows there are.
    pub closed spec fn size(&self) -> nat {
        self.rows@.len()
    }

    /// What holds of every table: the index and the rows agree.
    pub closed spec fn wf(&self) -> bool {
        let index = rows_in(self.index);
        &&& self.names@.len() == self.rows@.len()
        &&& forall|i: int|
            0 <= i < self.names@.len() ==> index.contains_key(#[trigger] self.name(i))
                && index[self.name(i)] == i
        &&& forall|name: (Seq<char>, Seq<char>)| #[trigger]
            index.contains_key(name) ==> index[name] < self.rows@.len() && self.name(
                index[name] as int,
            ) == name
    }

    /// Every row stands under its name, every name has a row, and no two rows share one.
    pub proof fn lemma_wf(&self)
        requires
            self.wf(),
        ensures
            forall|i: int| 0 <= i < self.size() ==> self@.contains_key(#[trigger] self.name(i)),
            forall|i: int, j: int|
                0 <= i < self.size() && 0 <= j < self.size() && #[trigger] self.name(i)
                    == #[trigger] self.name(j) ==> i == j,
            forall|name: (Seq<char>, Seq<char>)| #[trigger]
                self@.contains_key(name) ==> exists|i: int|
                    0 <= i < self.size() && #[trigger] self.name(i) == name,
    {
        let index = rows_in(self.index);
        assert forall|name: (Seq<char>, Seq<char>)| #[trigger]
            self@.contains_key(name) implies exists|i: int|
            0 <= i < self.size() && #[trigger] self.name(i) == name by {
            assert(index.contains_key(name));
            assert(self.name(index[name] as int) == name);
        }
    }

    /// An empty table.
    pub fn new() -> (r: Self)
        ensures
            r.wf(),
            r@ == Map::<(Seq<char>, Seq<char>), T>::empty(),
            r.size() == 0,
    {
        let r = Table { index: new_index(), names: Vec::new(), rows: Vec::new() };
        assert(r@ =~= Map::<(Seq<char>, Seq<char>), T>::empty());
        r
    }

    /// How many names there are.
    pub fn len(&self) -> (r: usize)
        ensures
            r == self@.dom().len(),
    {
        assert(self@.dom() =~= rows_in(self.index).dom());
        index_len(&self.index)
    }

    /// How many rows there are.
    pub fn count(&self) -> (r: usize)
        ensures
            r == self.size(),
    {
        self.rows.len()
    }

    /// The row under a name.
    pub fn get(&self, namespace: &str, key: &str) -> (r: Option<&T>)
        requires
            self.wf(),
        ensures
            match r {
                Some(row) => self@.contains_key((namespace@, key@)) && self@[(
                    namespace@,
                    key@,
                )] == *row,
                None => !self@.contains_key((namespace@, key@)),
            },
    {
        match index_get(&self.index, namespace, key) {
            Some(row) => Some(&self.rows[row]),
            None => None,
        }
    }

    /// The row at `i`.
    pub fn row(&self, i: usize) -> (r: &T)
        requires
            self.wf(),
            i < self.size(),
        ensures
            self@.contains_key(self.name(i as int)),
            *r == self@[self.name(i as int)],
    {
        assert(rows_in(self.index).contains_key(self.name(i as int)));
        &self.rows[i]
    }

    /// The name of the row at `i`.
    pub fn name_of(&self, i: usize) -> (r: (String, String))
        requires
            self.wf(),
            i < self.size(),
        ensures
            (r.0@, r.1@) == self.name(i as int),
    {
        (self.names[i].0.clone(), self.names[i].1.clone())
    }

    /// File a row under a name, in place of an earlier one.
    pub fn put(&mut self, namespace: &str, key: &str, row: T)
        requires
            old(self).wf(),
        ensures
            final(self).wf(),
            final(self)@ == old(self)@.insert((namespace@, key@), row),
    {
        let ghost before = *self;
        let ghost name = (namespace@, key@);
        match index_get(&self.index, namespace, key) {
            Some(at) => {
                self.rows.set(at, row);
                proof {
                    assert forall|i: int| #[trigger] self.name(i) == before.name(i) by {}
                    assert(self@ =~= before@.insert(name, row));
                }
            },
            None => {
                let at: usize = self.rows.len();
                index_insert(&mut self.index, namespace, key, at);
                self.names.push((namespace.to_owned(), key.to_owned()));
                self.rows.push(row);
                proof {
                    let index = rows_in(self.index);
                    let earlier = rows_in(before.index);
                    assert forall|i: int| 0 <= i < before.names@.len() implies #[trigger] self.name(
                        i,
                    ) == before.name(i) by {}
                    assert(self.name(at as int) == name);
                    assert forall|i: int| 0 <= i < self.names@.len() implies index.contains_key(
                        #[trigger] self.name(i),
                    ) && index[self.name(i)] == i by {
                        if i < before.names@.len() {
                            assert(earlier.contains_key(before.name(i)));
                        }
                    }
                    assert forall|other: (Seq<char>, Seq<char>)| #[trigger]
                        index.contains_key(other) implies index[other] < self.rows@.len()
                        && self.name(index[other] as int) == other by {
                        if other != name {
                            assert(earlier.contains_key(other));
                        }
                    }
                    assert forall|other: (Seq<char>, Seq<char>)| #[trigger]
                        self@.contains_key(other) implies self@[other] == before@.insert(
                        name,
                        row,
                    )[other] by {
                        if other != name {
                            assert(earlier.contains_key(other));
                        }
                    }
                    assert(self@ =~= before@.insert(name, row));
                }
            },
        }
    }

    /// Take the row under a name out of the table. The last row takes its place.
    pub fn remove(&mut self, namespace: &str, key: &str) -> (r: Option<T>)
        requires
            old(self).wf(),
        ensures
            final(self).wf(),
            final(self)@ == old(self)@.remove((namespace@, key@)),
            match r {
                Some(row) => {
                    &&& old(self)@.contains_key((namespace@, key@))
                    &&& old(self)@[(namespace@, key@)] == row
                    &&& final(self).size() == old(self).size() - 1
                },
                None => !old(self)@.contains_key((namespace@, key@)) && final(self).size() == old(
                    self,
                ).size(),
            },
    {
        let ghost before = *self;
        let ghost name = (namespace@, key@);
        match index_remove(&mut self.index, namespace, key) {
            Some(at) => {
                let ghost last = before.rows@.len() - 1;
                assert(before.name(at as int) == name);
                let row = self.rows.swap_remove(at);
                let _ = self.names.swap_remove(at);
                proof {
                    assert forall|i: int| 0 <= i < self.names@.len() implies #[trigger] self.name(i)
                        == before.name(if i == at { last } else { i }) by {}
                }
                if at < self.names.len() {
                    let moved_namespace = self.names[at].0.clone();
                    let moved_key = self.names[at].1.clone();
                    index_insert(
                        &mut self.index,
                        moved_namespace.as_str(),
                        moved_key.as_str(),
                        at,
                    );
                }
                proof {
                    let index = rows_in(self.index);
                    let earlier = rows_in(before.index);
                    assert(earlier.contains_key(before.name(last)));
                    assert forall|i: int| 0 <= i < self.names@.len() implies index.contains_key(
                        #[trigger] self.name(i),
                    ) && index[self.name(i)] == i by {
                        let source = if i == at { last } else { i };
                        assert(earlier.contains_key(before.name(source)));
                        assert(earlier[before.name(source)] == source);
                    }
                    assert forall|other: (Seq<char>, Seq<char>)| #[trigger]
                        index.contains_key(other) implies index[other] < self.rows@.len()
                        && self.name(index[other] as int) == other by {
                        assert(earlier.contains_key(other));
                        assert(before.name(earlier[other] as int) == other);
                    }
                    assert forall|other: (Seq<char>, Seq<char>)| self@.contains_key(other)
                        == #[trigger] before@.remove(name).contains_key(other) by {
                        if earlier.contains_key(other) {
                            assert(before.name(earlier[other] as int) == other);
                        }
                    }
                    assert forall|other: (Seq<char>, Seq<char>)| #[trigger]
                        self@.contains_key(other) implies self@[other] == before@.remove(
                        name,
                    )[other] by {
                        assert(earlier.contains_key(other));
                        assert(before.name(earlier[other] as int) == other);
                    }
                    assert(self@ =~= before@.remove(name));
                }
                Some(row)
            },
            None => {
                assert(rows_in(self.index) =~= rows_in(before.index));
                assert forall|i: int| #[trigger] self.name(i) == before.name(i) by {}
                assert(self@ =~= before@.remove(name));
                None
            },
        }
    }
}

} // verus!
