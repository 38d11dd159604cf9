//! The persisted records of a cohort: a map from byte-string keys to
//! byte-string values.
//!
//! The store is an append-only list of writes; the newest write of a key
//! is its value.

use vstd::prelude::*;

verus! {

/// One write: a key and the value it was given.
pub struct Entry {
    pub key: Vec<u8>,
    pub value: Vec<u8>,
}

/// The map that a list of writes amounts to.
pub open spec fn map_of(entries: Seq<Entry>) -> Map<Seq<u8>, Seq<u8>>
    decreases entries.len(),
{
    if entries.len() == 0 {
        Map::empty()
    } else {
        map_of(entries.drop_last()).insert(entries.last().key@, entries.last().value@)
    }
}

/// Whether two byte strings are equal.
pub fn bytes_eq(a: &Vec<u8>, b: &Vec<u8>) -> (r: bool)
    ensures
        r == (a@ == b@),
{
    if a.len() != b.len() {
        return false;
    }
    let mut i: usize = 0;
    while i < a.len()
        invariant
            i <= a.len(),
            a.len() == b.len(),
            forall|k: int| 0 <= k < i ==> a@[k] == b@[k],
        decreases a.len() - i,
    {
        if a[i] != b[i] {
            return false;
        }
        i += 1;
    }
    assert(a@ =~= b@);
    true
}

/// A copy of a byte string.
pub fn bytes_copy(a: &Vec<u8>) -> (r: Vec<u8>)
    ensures
        r@ == a@,
{
    let mut r: Vec<u8> = Vec::new();
    let mut i: usize = 0;
    while i < a.len()
        invariant
            i <= a.len(),
            r@ == a@.take(i as int),
        decreases a.len() - i,
    {
        r.push(a[i]);
        assert(a@.take(i as int + 1) =~= a@.take(i as int).push(a@[i as int]));
        i += 1;
    }
    assert(a@.take(a.len() as int) =~= a@);
    r
}

/// The persisted records.
pub struct Store {
    entries: Vec<Entry>,
}

impl View for Store {
    type V = Map<Seq<u8>, Seq<u8>>;

    closed spec fn view(&self) -> Map<Seq<u8>, Seq<u8>> {
        map_of(self.entries@)
    }
}

impl Store {
    /// A store with no records.
    pub fn new() -> (r: Store)
        ensures
            r@ == Map::<Seq<u8>, Seq<u8>>::empty(),
    {
        Store { entries: Vec::new() }
    }

    /// The value of a key, if it has one.
    pub fn get(&self, key: &Vec<u8>) -> (r: Option<Vec<u8>>)
        ensures
            r is Some <==> self@.contains_key(key@),
            r is Some ==> r->Some_0@ == self@[key@],
    {
        let mut i: usize = self.entries.len();
        proof {
            assert(self.entries@.take(i as int) =~= self.entries@);
        }
        while i > 0
            invariant
                i <= self.entries.len(),
                self@.contains_key(key@) <==> map_of(self.entries@.take(i as int)).contains_key(key@),
                self@.contains_key(key@) ==> self@[key@] == map_of(self.entries@.take(i as int))[key@],
            decreases i,
        {
            proof {
                assert(self.entries@.take(i as int).drop_last() =~= self.entries@.take(i as int - 1));
            }
            i -= 1;
            if bytes_eq(&self.entries[i].key, key) {
                return Some(bytes_copy(&self.entries[i].value));
            }
        }
        None
    }

    /// Whether a key has a value.
    pub fn contains(&self, key: &Vec<u8>) -> (r: bool)
        ensures
            r == self@.contains_key(key@),
    {
        self.get(key).is_some()
    }

    /// Gives a key a value, replacing the one it had.
    pub fn put(&mut self, key: Vec<u8>, value: Vec<u8>)
        ensures
            final(self)@ == old(self)@.insert(key@, value@),
    {
        let ghost before = self.entries@;
        self.entries.push(Entry { key, value });
        proof {
            assert(self.entries@.drop_last() =~= before);
        }
    }

    /// The writes that make up the store, oldest first, to be written out.
    pub fn writes(&self) -> (r: &Vec<Entry>)
        ensures
            map_of(r@) == self@,
    {
        &self.entries
    }

    /// The store that a list of writes, oldest first, makes up.
    pub fn from_writes(entries: Vec<Entry>) -> (r: Store)
        ensures
            r@ == map_of(entries@),
    {
        Store { entries }
    }
}


/// One row of a table: a numeric key and the value it was given.
pub struct Row<V> {
    pub key: u128,
    pub value: V,
}

/// The map that a list of rows amounts to: the newest row of a key is its
/// value.
pub open spec fn rows_map<V>(rows: Seq<Row<V>>) -> Map<u128, V>
    decreases rows.len(),
{
    if rows.len() == 0 {
        Map::empty()
    } else {
        rows_map(rows.drop_last()).insert(rows.last().key, rows.last().value)
    }
}

/// A map from numeric keys to values.
pub struct Table<V> {
    rows: Vec<Row<V>>,
}

impl<V> View for Table<V> {
    type V = Map<u128, V>;

    closed spec fn view(&self) -> Map<u128, V> {
        rows_map(self.rows@)
    }
}

impl<V> Table<V> {
    /// A table with no rows.
    pub fn new() -> (r: Table<V>)
        ensures
            r@ == Map::<u128, V>::empty(),
    {
        Table { rows: Vec::new() }
    }

    /// The value of a key, if it has one.
    pub fn get(&self, key: u128) -> (r: Option<&V>)
        ensures
            r is Some <==> self@.contains_key(key),
            r is Some ==> *r->Some_0 == self@[key],
    {
        let mut i: usize = self.rows.len();
        proof {
            assert(self.rows@.take(i as int) =~= self.rows@);
        }
        while i > 0
            invariant
                i <= self.rows.len(),
                self@.contains_key(key) <==> rows_map(self.rows@.take(i as int)).contains_key(key),
                self@.contains_key(key) ==> self@[key] == rows_map(self.rows@.take(i as int))[key],
            decreases i,
        {
            proof {
                assert(self.rows@.take(i as int).drop_last() =~= self.rows@.take(i as int - 1));
            }
            i -= 1;
            if self.rows[i].key == key {
                return Some(&self.rows[i].value);
            }
        }
        None
    }

    /// Whether a key has a value.
    pub fn contains(&self, key: u128) -> (r: bool)
        ensures
            r == self@.contains_key(key),
    {
        self.get(key).is_some()
    }

    /// Gives a key a value, replacing the one it had.
    pub fn put(&mut self, key: u128, value: V)
        ensures
            final(self)@ == old(self)@.insert(key, value),
    {
        let ghost before = self.rows@;
        self.rows.push(Row { key, value });
        proof {
            assert(self.rows@.drop_last() =~= before);
        }
    }
}

} // verus!
