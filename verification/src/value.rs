//! Values that a flow program computes, and the shared, lockable cells that
//! hold them.
use vstd::prelude::*;
use crate::ast::{Number, PrefabValue};
use vstd::utf8::{encode_utf8, encode_utf8_decode_utf8};
use std::sync::{Arc, RwLock};

verus! {

/// A value: lists and objects hold references to further shared cells.
#[derive(Clone, Debug)]
pub enum Value {
    Null,
    Bool(bool),
    Number(Number),
    String(String),
    List(Vec<Reference>),
    Object(ObjectMap),
}

/// The entries of an object value, each key at most once.
#[derive(Clone, Debug)]
pub struct ObjectMap {
    entries: Vec<(String, Reference)>,
}

/// Keys of the entries, in order.
pub open spec fn entry_keys(entries: Seq<(String, Reference)>) -> Seq<Seq<char>> {
    entries.map_values(|e: (String, Reference)| e.0@)
}

/// The UTF-8 bytes of a key, by which keys are ordered.
pub open spec fn key_bytes(k: String) -> Seq<u8> {
    encode_utf8(k@)
}

/// Lexicographic order of byte strings: `a` comes strictly before `b`.
pub open spec fn bytes_lt(a: Seq<u8>, b: Seq<u8>) -> bool
    decreases a.len(),
{
    if b.len() == 0 {
        false
    } else if a.len() == 0 {
        true
    } else if a[0] != b[0] {
        a[0] < b[0]
    } else {
        bytes_lt(a.drop_first(), b.drop_first())
    }
}

/// The keys are in strictly increasing order, as a map ordered by key keeps them.
pub open spec fn keys_sorted(entries: Seq<(String, Reference)>) -> bool {
    forall|i: int, j: int| 0 <= i < j < entries.len() ==> bytes_lt(key_bytes(entries[i].0), key_bytes(entries[j].0))
}

pub open spec fn keys_distinct(entries: Seq<(String, Reference)>) -> bool {
    forall|i: int, j: int| 0 <= i < j < entries.len() ==> entries[i].0@ != entries[j].0@
}

/// The entry with the given key.
pub open spec fn entry_lookup(entries: Seq<(String, Reference)>, key: Seq<char>) -> Option<Reference>
    decreases entries.len(),
{
    if entries.len() == 0 {
        None
    } else if entries[0].0@ == key {
        Some(entries[0].1)
    } else {
        entry_lookup(entries.drop_first(), key)
    }
}

proof fn lemma_bytes_lt_irreflexive(a: Seq<u8>)
    ensures
        !bytes_lt(a, a),
    decreases a.len(),
{
    if a.len() > 0 {
        lemma_bytes_lt_irreflexive(a.drop_first());
    }
}

proof fn lemma_bytes_lt_transitive(a: Seq<u8>, b: Seq<u8>, c: Seq<u8>)
    requires
        bytes_lt(a, b),
        bytes_lt(b, c),
    ensures
        bytes_lt(a, c),
    decreases a.len(),
{
    if a.len() > 0 && b.len() > 0 && c.len() > 0 && a[0] == b[0] && b[0] == c[0] {
        lemma_bytes_lt_transitive(a.drop_first(), b.drop_first(), c.drop_first());
    }
}

proof fn lemma_bytes_lt_total(a: Seq<u8>, b: Seq<u8>)
    requires
        a != b,
    ensures
        bytes_lt(a, b) || bytes_lt(b, a),
    decreases a.len(),
{
    if a.len() > 0 && b.len() > 0 && a[0] == b[0] {
        if a.drop_first() == b.drop_first() {
            assert(a =~= seq![a[0]] + a.drop_first());
            assert(b =~= seq![b[0]] + b.drop_first());
        }
        lemma_bytes_lt_total(a.drop_first(), b.drop_first());
    } else if a.len() == 0 && b.len() == 0 {
        assert(a =~= b);
    }
}

/// Keys with the same bytes are the same key.
proof fn lemma_key_bytes_injective(a: String, b: String)
    ensures
        key_bytes(a) == key_bytes(b) <==> a@ == b@,
{
    encode_utf8_decode_utf8(a@);
    encode_utf8_decode_utf8(b@);
}

/// Keys in increasing order are distinct.
proof fn lemma_sorted_distinct(entries: Seq<(String, Reference)>)
    requires
        keys_sorted(entries),
    ensures
        keys_distinct(entries),
{
    assert forall|i: int, j: int| 0 <= i < j < entries.len() implies entries[i].0@ != entries[j].0@ by {
        lemma_key_bytes_injective(entries[i].0, entries[j].0);
        lemma_bytes_lt_irreflexive(key_bytes(entries[i].0));
    }
}

/// With distinct keys, a lookup finds the entry that holds the key.
proof fn lemma_lookup_distinct(entries: Seq<(String, Reference)>, key: Seq<char>)
    requires
        keys_distinct(entries),
    ensures
        forall|i: int| 0 <= i < entries.len() && entries[i].0@ == key ==> entry_lookup(entries, key) == Some(entries[i].1),
        (forall|i: int| 0 <= i < entries.len() ==> entries[i].0@ != key) ==> entry_lookup(entries, key) is None,
    decreases entries.len(),
{
    if entries.len() > 0 {
        let rest = entries.drop_first();
        assert(keys_distinct(rest)) by {
            assert forall|i: int, j: int| 0 <= i < j < rest.len() implies rest[i].0@ != rest[j].0@ by {
                assert(rest[i] == entries[i + 1] && rest[j] == entries[j + 1]);
            }
        }
        lemma_lookup_distinct(rest, key);
        assert forall|i: int| 0 <= i < entries.len() && entries[i].0@ == key implies entry_lookup(entries, key) == Some(entries[i].1) by {
            if i > 0 {
                assert(rest[i - 1] == entries[i]);
                assert(entries[0].0@ != entries[i].0@);
            }
        }
        if forall|i: int| 0 <= i < entries.len() ==> entries[i].0@ != key {
            assert(entries[0].0@ != key);
            assert forall|i: int| 0 <= i < rest.len() implies rest[i].0@ != key by {
                assert(rest[i] == entries[i + 1]);
            }
        }
    }
}

/// Whether `a` comes strictly before `b` in the order of keys.
fn key_before(a: &String, b: &String) -> (r: bool)
    ensures
        r == bytes_lt(key_bytes(*a), key_bytes(*b)),
{
    let x = a.as_str().as_bytes();
    let y = b.as_str().as_bytes();
    let ghost xs = key_bytes(*a);
    let ghost ys = key_bytes(*b);
    assert(x@ == xs && y@ == ys);
    assert(xs.skip(0) =~= xs && ys.skip(0) =~= ys);
    let mut i: usize = 0;
    while i < x.len() && i < y.len()
        invariant
            x@ == xs,
            y@ == ys,
            xs == key_bytes(*a),
            ys == key_bytes(*b),
            i <= xs.len(),
            i <= ys.len(),
            bytes_lt(xs, ys) == bytes_lt(xs.skip(i as int), ys.skip(i as int)),
        decreases xs.len() - i,
    {
        assert(xs.skip(i as int).len() > 0 && ys.skip(i as int).len() > 0);
        assert(xs.skip(i as int)[0] == x@[i as int] && ys.skip(i as int)[0] == y@[i as int]);
        if x[i] != y[i] {
            assert(bytes_lt(xs.skip(i as int), ys.skip(i as int)) == (x@[i as int] < y@[i as int]));
            return x[i] < y[i];
        }
        assert(xs.skip(i as int).drop_first() =~= xs.skip(i + 1));
        assert(ys.skip(i as int).drop_first() =~= ys.skip(i + 1));
        i = i + 1;
    }
    assert(xs.skip(i as int).len() == xs.len() - i && ys.skip(i as int).len() == ys.len() - i);
    i < y.len()
}

impl ObjectMap {
    /// Keys are in increasing order, each at most once.
    pub closed spec fn wf(self) -> bool {
        keys_sorted(self.entries@)
    }

    /// The entries in key order.
    pub closed spec fn entries(self) -> Seq<(String, Reference)> {
        self.entries@
    }

    /// No key is held twice.
    pub proof fn lemma_keys_distinct(self)
        requires
            self.wf(),
        ensures
            keys_distinct(self.entries()),
    {
        lemma_sorted_distinct(self.entries@);
    }

    /// An object with no entries.
    pub fn new() -> (m: ObjectMap)
        ensures
            m.wf(),
            m.entries() == Seq::<(String, Reference)>::empty(),
    {
        ObjectMap { entries: Vec::new() }
    }

    /// Sets `key` to `value`, as a map insertion does: the key then holds the
    /// value, every other key holds what it held, the keys are the old keys
    /// and this one, still in order.
    pub fn insert(&mut self, key: String, value: Reference)
        requires
            old(self).wf(),
        ensures
            final(self).wf(),
            entry_lookup(final(self).entries(), key@) == Some(value),
            forall|k: Seq<char>| k != key@ ==> entry_lookup(final(self).entries(), k) == entry_lookup(old(self).entries(), k),
            entry_keys(final(self).entries()).to_set() == entry_keys(old(self).entries()).to_set().insert(key@),
    {
        let ghost old_entries = self.entries@;
        proof {
            lemma_sorted_distinct(old_entries);
        }
        let mut i: usize = 0;
        while i < self.entries.len()
            invariant
                0 <= i <= self.entries@.len(),
                self.entries@ == old_entries,
                old_entries == old(self).entries@,
                keys_sorted(old_entries),
                keys_distinct(old_entries),
                forall|j: int| 0 <= j < i ==> bytes_lt(key_bytes(#[trigger] old_entries[j].0), key_bytes(key)),
            decreases self.entries@.len() - i,
        {
            if self.entries[i].0 == key {
                let k = self.entries[i].0.clone();
                self.entries.set(i, (k, value));
                proof {
                    let e = self.entries@;
                    assert(entry_keys(e) =~= entry_keys(old_entries));
                    assert(keys_distinct(e));
                    lemma_lookup_distinct(e, key@);
                    assert forall|k: Seq<char>| k != key@ implies entry_lookup(e, k) == entry_lookup(old_entries, k) by {
                        lemma_lookup_distinct(e, k);
                        lemma_lookup_distinct(old_entries, k);
                        assert forall|j: int| 0 <= j < e.len() && j != i implies e[j] == old_entries[j] by {}
                        if exists|j: int| 0 <= j < e.len() && e[j].0@ == k {
                            let j = choose|j: int| 0 <= j < e.len() && e[j].0@ == k;
                            assert(j != i);
                            assert(old_entries[j].0@ == k);
                        } else {
                            assert forall|j: int| 0 <= j < old_entries.len() implies old_entries[j].0@ != k by {
                                assert(e[j].0@ == old_entries[j].0@);
                            }
                        }
                    }
                    assert(entry_keys(old_entries)[i as int] == key@);
                    assert(entry_keys(e).to_set() =~= entry_keys(old_entries).to_set().insert(key@));
                }
                return;
            }
            if key_before(&key, &self.entries[i].0) {
                self.entries.insert(i, (key, value));
                proof {
                    lemma_insert_sorted(old_entries, i as int, key, value);
                }
                return;
            }
            proof {
                lemma_key_bytes_injective(key, old_entries[i as int].0);
                lemma_bytes_lt_total(key_bytes(key), key_bytes(old_entries[i as int].0));
            }
            i = i + 1;
        }
        let ghost before = self.entries@;
        self.entries.push((key, value));
        proof {
            assert(before.push((key, value)) == before.insert(before.len() as int, (key, value)));
            lemma_insert_sorted(old_entries, old_entries.len() as int, key, value);
        }
    }

    /// The reference stored under `key`.
    pub fn get(&self, key: &String) -> (r: Option<&Reference>)
        ensures
            match r {
                Some(x) => entry_lookup(self.entries(), key@) == Some(*x),
                None => entry_lookup(self.entries(), key@) is None,
            },
    {
        let mut i: usize = 0;
        assert(self.entries@.subrange(0, self.entries@.len() as int) =~= self.entries@);
        while i < self.entries.len()
            invariant
                0 <= i <= self.entries@.len(),
                entry_lookup(self.entries@, key@) == entry_lookup(self.entries@.subrange(i as int, self.entries@.len() as int), key@),
            decreases self.entries@.len() - i,
        {
            let ghost rest = self.entries@.subrange(i as int, self.entries@.len() as int);
            assert(rest[0] == self.entries@[i as int]);
            if self.entries[i].0 == *key {
                return Some(&self.entries[i].1);
            }
            assert(rest.drop_first() =~= self.entries@.subrange(i + 1, self.entries@.len() as int));
            i = i + 1;
        }
        None
    }

    /// Number of entries.
    pub fn len(&self) -> (n: usize)
        ensures
            n == self.entries().len(),
    {
        self.entries.len()
    }

    /// The entry at a position.
    pub fn entry(&self, i: usize) -> (r: &(String, Reference))
        requires
            i < self.entries().len(),
        ensures
            *r == self.entries()[i as int],
    {
        &self.entries[i]
    }
}

/// Inserting a key where the keys before it are smaller and the keys after
/// it larger keeps the keys in order and sets the key.
proof fn lemma_insert_sorted(entries: Seq<(String, Reference)>, p: int, key: String, value: Reference)
    requires
        0 <= p <= entries.len(),
        keys_sorted(entries),
        forall|j: int| 0 <= j < p ==> bytes_lt(key_bytes(#[trigger] entries[j].0), key_bytes(key)),
        p < entries.len() ==> bytes_lt(key_bytes(key), key_bytes(entries[p].0)),
    ensures
        keys_sorted(entries.insert(p, (key, value))),
        entry_lookup(entries.insert(p, (key, value)), key@) == Some(value),
        forall|k: Seq<char>| k != key@ ==> entry_lookup(entries.insert(p, (key, value)), k) == entry_lookup(entries, k),
        entry_keys(entries.insert(p, (key, value))).to_set() == entry_keys(entries).to_set().insert(key@),
{
    let e = entries.insert(p, (key, value));
    assert forall|j: int| p < j < entries.len() implies bytes_lt(key_bytes(key), key_bytes(#[trigger] entries[j].0)) by {
        lemma_bytes_lt_transitive(key_bytes(key), key_bytes(entries[p].0), key_bytes(entries[j].0));
    }
    assert(keys_sorted(e)) by {
        assert forall|i: int, j: int| 0 <= i < j < e.len() implies bytes_lt(key_bytes(e[i].0), key_bytes(e[j].0)) by {
            if j < p {
                assert(e[i] == entries[i] && e[j] == entries[j]);
            } else if j == p {
                assert(e[i] == entries[i]);
            } else if i < p {
                assert(e[i] == entries[i] && e[j] == entries[j - 1]);
                if j - 1 > p {
                    assert(bytes_lt(key_bytes(entries[i].0), key_bytes(key)));
                    lemma_bytes_lt_transitive(key_bytes(entries[i].0), key_bytes(key), key_bytes(entries[j - 1].0));
                } else {
                    lemma_bytes_lt_transitive(key_bytes(entries[i].0), key_bytes(key), key_bytes(entries[j - 1].0));
                }
            } else if i == p {
                assert(e[j] == entries[j - 1]);
            } else {
                assert(e[i] == entries[i - 1] && e[j] == entries[j - 1]);
            }
        }
    }
    lemma_sorted_distinct(entries);
    lemma_sorted_distinct(e);
    lemma_lookup_distinct(e, key@);
    assert(e[p] == (key, value));
    assert forall|k: Seq<char>| k != key@ implies entry_lookup(e, k) == entry_lookup(entries, k) by {
        lemma_lookup_distinct(e, k);
        lemma_lookup_distinct(entries, k);
        if exists|j: int| 0 <= j < entries.len() && entries[j].0@ == k {
            let j = choose|j: int| 0 <= j < entries.len() && entries[j].0@ == k;
            if j < p {
                assert(e[j] == entries[j]);
            } else {
                assert(e[j + 1] == entries[j]);
            }
        }
        if exists|j: int| 0 <= j < e.len() && e[j].0@ == k {
            let j = choose|j: int| 0 <= j < e.len() && e[j].0@ == k;
            if j < p {
                assert(e[j] == entries[j]);
            } else if j > p {
                assert(e[j] == entries[j - 1]);
            }
        }
    }
    assert forall|k: Seq<char>| entry_keys(e).to_set().contains(k) <==> entry_keys(entries).to_set().insert(key@).contains(k) by {
        if entry_keys(e).contains(k) {
            let j = choose|j: int| 0 <= j < entry_keys(e).len() && entry_keys(e)[j] == k;
            if j < p {
                assert(entry_keys(entries)[j] == k);
            } else if j > p {
                assert(entry_keys(entries)[j - 1] == k);
            }
        }
        if k == key@ {
            assert(entry_keys(e)[p] == k);
        } else if entry_keys(entries).contains(k) {
            let j = choose|j: int| 0 <= j < entry_keys(entries).len() && entry_keys(entries)[j] == k;
            if j < p {
                assert(entry_keys(e)[j] == k);
            } else {
                assert(entry_keys(e)[j + 1] == k);
            }
        }
    }
    assert(entry_keys(e).to_set() =~= entry_keys(entries).to_set().insert(key@));
}

/// A shared, lockable cell holding a value. In contracts a cell stands for its
/// identity, the one allocation that all its shares point to; its contents
/// can change through any share, so no contract states them.
#[derive(Debug)]
#[verifier::external_body]
pub struct SharedCell {
    inner: Arc<RwLock<Value>>,
}

/// The value a cell was made with. This is a fact of the cell's making:
/// writes through any share later change what the cell holds, not this.
pub uninterp spec fn cell_created_with(cell: SharedCell) -> Value;

impl SharedCell {
    /// `Arc::new(RwLock::new(value))`: a fresh cell made with `value`. Nothing
    /// is stated of the new cell's identity.
    #[verifier::external_body]
    pub fn new(value: Value) -> (r: SharedCell)
        ensures
            cell_created_with(r) == value,
    {
        SharedCell { inner: Arc::new(RwLock::new(value)) }
    }

    /// `RwLock::read` and a clone of the value: waits for writers, and panics
    /// where a writer panicked while it held the lock, a state that no
    /// contract here can name. The value read is not stated.
    #[verifier::external_body]
    pub fn read_clone(&self) -> Value {
        self.inner.read().unwrap().clone()
    }

    /// `RwLock::write` and an assignment: waits for other holders, and panics
    /// where a writer panicked while it held the lock, a state that no
    /// contract here can name.
    #[verifier::external_body]
    pub fn store(&self, value: Value) {
        *self.inner.write().unwrap() = value;
    }

    /// `RwLock::try_read` and a clone of the value: `None` where the cell is
    /// locked for writing (or poisoned). Which of the two outcomes comes, and
    /// the value read, are not stated: both depend on the cell's state.
    #[verifier::external_body]
    pub fn try_read_clone(&self) -> Option<Value> {
        match self.inner.try_read() {
            Ok(guard) => Some(guard.clone()),
            Err(_) => None,
        }
    }

    /// `RwLock::try_write`, the lock released at once: whether the cell could
    /// be locked for writing. That depends on the cell's state, so nothing is
    /// stated of the answer.
    #[verifier::external_body]
    pub fn try_lock_write(&self) -> bool {
        self.inner.try_write().is_ok()
    }
}

impl Clone for SharedCell {
    /// `Arc::clone`: another share of the same cell.
    #[verifier::external_body]
    fn clone(&self) -> (r: Self)
        ensures
            r == *self,
    {
        SharedCell { inner: Arc::clone(&self.inner) }
    }
}

/// A reference to a shared cell: copies of a reference see each other's writes.
#[derive(Debug)]
pub struct Reference(pub SharedCell);

impl Clone for Reference {
    fn clone(&self) -> (r: Self)
        ensures
            r == *self,
    {
        Reference(self.0.clone())
    }
}

impl Reference {
    /// A reference to an existing cell.
    pub fn new(inner: SharedCell) -> (r: Reference)
        ensures
            r.0 == inner,
    {
        Reference(inner)
    }

    /// A reference to a fresh cell made with `value`.
    pub fn value(value: Value) -> (r: Reference)
        ensures
            cell_created_with(r.0) == value,
    {
        Reference(SharedCell::new(value))
    }

    /// A copy of the value the cell holds now.
    pub fn into_inner(self) -> Value {
        self.0.read_clone()
    }

    /// A copy of the value the cell holds now.
    pub fn read(&self) -> Value {
        self.0.read_clone()
    }

    /// Replaces the value the cell holds; every copy of the reference sees it.
    pub fn write(&mut self, value: Value)
        ensures
            *final(self) == *old(self),
    {
        self.0.store(value)
    }
}

/// Whether every mapping key in the data, at any depth, is a string.
pub open spec fn keys_are_strings(data: PrefabValue) -> bool
    decreases data,
{
    match data {
        PrefabValue::Sequence(items) => forall|i: int|
            0 <= i < items.len() ==> keys_are_strings(#[trigger] items@[i]),
        PrefabValue::Mapping(pairs) => forall|i: int|
            0 <= i < pairs.len() ==> {
                &&& (#[trigger] pairs@[i]).0 is String
                &&& keys_are_strings(pairs@[i].1)
            },
        _ => true,
    }
}

/// The keys a mapping yields, in order (later duplicates overwrite earlier ones).
pub open spec fn mapping_key(p: (PrefabValue, PrefabValue)) -> Seq<char> {
    match p.0 {
        PrefabValue::String(s) => s@,
        _ => Seq::empty(),
    }
}

/// Whether no later pair of a mapping has the key of pair `i`.
pub open spec fn last_with_key(pairs: Seq<(PrefabValue, PrefabValue)>, i: int) -> bool {
    forall|l: int| i < l < pairs.len() ==> mapping_key(pairs[l]) != mapping_key(pairs[i])
}

/// A value converted from prefab data: the same variant and scalar; a list
/// whose cells, in order, were made with the conversions of the items; an
/// object with the mapping's keys, the cell of each key made with the
/// conversion of the value of the key's last pair.
pub open spec fn converted(data: PrefabValue, v: Value) -> bool
    decreases data,
{
    match data {
        PrefabValue::Null => v is Null,
        PrefabValue::Bool(a) => v == Value::Bool(a),
        PrefabValue::Number(a) => v == Value::Number(a),
        PrefabValue::String(a) => v == Value::String(a),
        PrefabValue::Sequence(items) => v matches Value::List(refs) && refs@.len() == items@.len() && forall|i: int|
            0 <= i < items@.len() ==> converted(#[trigger] items@[i], cell_created_with(refs@[i].0)),
        PrefabValue::Mapping(pairs) => v matches Value::Object(m) && entry_keys(m.entries()).to_set()
            == pairs@.map_values(|p: (PrefabValue, PrefabValue)| mapping_key(p)).to_set() && forall|i: int|
            0 <= i < pairs@.len() && last_with_key(pairs@, i) ==> (entry_lookup(m.entries(), mapping_key(#[trigger] pairs@[i]))
                matches Some(r) && converted(pairs@[i].1, cell_created_with(r.0))),
    }
}

/// Converts prefab data into a value: each item of a sequence and each value
/// of a mapping goes into a fresh cell. A mapping key that is not a string
/// makes the conversion panic, which `requires` leaves out.
pub fn value_from_prefab(data: &PrefabValue) -> (v: Value)
    requires
        keys_are_strings(*data),
    ensures
        converted(*data, v),
    decreases data,
{
    match data {
        PrefabValue::Null => Value::Null,
        PrefabValue::Bool(b) => Value::Bool(*b),
        PrefabValue::Number(n) => Value::Number(*n),
        PrefabValue::String(s) => Value::String(s.clone()),
        PrefabValue::Sequence(items) => {
            let mut refs: Vec<Reference> = Vec::new();
            let mut i: usize = 0;
            while i < items.len()
                invariant
                    0 <= i <= items.len(),
                    refs@.len() == i,
                    forall|j: int| 0 <= j < i ==> converted(#[trigger] items@[j], cell_created_with(refs@[j].0)),
                    keys_are_strings(*data),
                    *data == PrefabValue::Sequence(*items),
                decreases items.len() - i,
            {
                proof {
                    assert(*data == PrefabValue::Sequence(*items));
                    assert(data matches PrefabValue::Sequence(v) && v == *items);
                    assert(decreases_to!(*data => *items));
                    assert(decreases_to!(*items => items@));
                    assert(decreases_to!(items@ => items@[i as int]));
                    assert(keys_are_strings(items@[i as int]));
                }
                let v = value_from_prefab(&items[i]);
                refs.push(Reference::value(v));
                i = i + 1;
            }
            Value::List(refs)
        },
        PrefabValue::Mapping(pairs) => {
            let mut m = ObjectMap::new();
            let mut i: usize = 0;
            let ghost keys = pairs@.map_values(|p: (PrefabValue, PrefabValue)| mapping_key(p));
            while i < pairs.len()
                invariant
                    0 <= i <= pairs.len(),
                    keys_are_strings(*data),
                    *data == PrefabValue::Mapping(*pairs),
                    keys == pairs@.map_values(|p: (PrefabValue, PrefabValue)| mapping_key(p)),
                    m.wf(),
                    entry_keys(m.entries()).to_set() == keys.subrange(0, i as int).to_set(),
                    forall|j: int|
                        0 <= j < i && (forall|l: int| j < l < i ==> keys[l] != keys[j]) ==> (entry_lookup(
                            m.entries(),
                            #[trigger] keys[j],
                        ) matches Some(r) && converted(pairs@[j].1, cell_created_with(r.0))),
                decreases pairs.len() - i,
            {
                proof {
                    assert(decreases_to!(*data => *pairs));
                    assert(decreases_to!(*pairs => pairs@));
                    assert(decreases_to!(pairs@ => pairs@[i as int]));
                    assert(decreases_to!(pairs@[i as int] => pairs@[i as int].1));
                    assert(pairs@[i as int].0 is String && keys_are_strings(pairs@[i as int].1));
                }
                let pair = &pairs[i];
                let key = match &pair.0 {
                    PrefabValue::String(k) => k.clone(),
                    _ => {
                        proof {
                            assert(false);
                        }
                        String::new()
                    },
                };
                let v = value_from_prefab(&pair.1);
                let r = Reference::value(v);
                proof {
                    lemma_subrange_push_to_set(keys, i as int);
                    assert(keys[i as int] == key@);
                }
                let ghost before = m.entries();
                m.insert(key, r);
                proof {
                    assert forall|j: int|
                        0 <= j < i + 1 && (forall|l: int| j < l < i + 1 ==> keys[l] != keys[j]) implies (entry_lookup(
                            m.entries(),
                            #[trigger] keys[j],
                        ) matches Some(r) && converted(pairs@[j].1, cell_created_with(r.0))) by {
                        if j < i {
                            assert(keys[i as int] != keys[j]);
                            assert(entry_lookup(m.entries(), keys[j]) == entry_lookup(before, keys[j]));
                        }
                    }
                }
                i = i + 1;
            }
            assert(keys.subrange(0, pairs@.len() as int) =~= keys);
            assert forall|j: int| 0 <= j < pairs@.len() && last_with_key(pairs@, j) implies (entry_lookup(
                m.entries(),
                mapping_key(#[trigger] pairs@[j]),
            ) matches Some(r) && converted(pairs@[j].1, cell_created_with(r.0))) by {
                assert(keys[j] == mapping_key(pairs@[j]));
                assert forall|l: int| j < l < pairs@.len() implies keys[l] != keys[j] by {
                    assert(keys[l] == mapping_key(pairs@[l]));
                }
            }
            Value::Object(m)
        },
    }
}

proof fn lemma_subrange_push_to_set(s: Seq<Seq<char>>, i: int)
    requires
        0 <= i < s.len(),
    ensures
        s.subrange(0, i + 1).to_set() == s.subrange(0, i).to_set().insert(s[i]),
{
    assert(s.subrange(0, i + 1) =~= s.subrange(0, i).push(s[i]));
    s.subrange(0, i).lemma_push_to_set_commute(s[i]);
}

/// Whether every mapping key in the data, at any depth, is a string (see
/// `keys_are_strings`).
pub fn keys_are_strings_exec(data: &PrefabValue) -> (r: bool)
    ensures
        r == keys_are_strings(*data),
    decreases data,
{
    match data {
        PrefabValue::Sequence(items) => {
            let mut i: usize = 0;
            while i < items.len()
                invariant
                    i <= items@.len(),
                    *data == PrefabValue::Sequence(*items),
                    forall|j: int| 0 <= j < i ==> keys_are_strings(#[trigger] items@[j]),
                decreases items@.len() - i,
            {
                proof {
                    assert(data matches PrefabValue::Sequence(v) && v == *items);
                    assert(decreases_to!(*data => *items));
                    assert(decreases_to!(*items => items@));
                    assert(decreases_to!(items@ => items@[i as int]));
                }
                if !keys_are_strings_exec(&items[i]) {
                    return false;
                }
                i = i + 1;
            }
            true
        },
        PrefabValue::Mapping(pairs) => {
            let mut i: usize = 0;
            while i < pairs.len()
                invariant
                    i <= pairs@.len(),
                    *data == PrefabValue::Mapping(*pairs),
                    forall|j: int| 0 <= j < i ==> {
                        &&& (#[trigger] pairs@[j]).0 is String
                        &&& keys_are_strings(pairs@[j].1)
                    },
                decreases pairs@.len() - i,
            {
                proof {
                    assert(data matches PrefabValue::Mapping(v) && v == *pairs);
                    assert(decreases_to!(*data => *pairs));
                    assert(decreases_to!(*pairs => pairs@));
                    assert(decreases_to!(pairs@ => pairs@[i as int]));
                    assert(decreases_to!(pairs@[i as int] => pairs@[i as int].1));
                }
                match &pairs[i].0 {
                    PrefabValue::String(_) => {},
                    _ => {
                        return false;
                    },
                }
                if !keys_are_strings_exec(&pairs[i].1) {
                    return false;
                }
                i = i + 1;
            }
            true
        },
        _ => true,
    }
}

} // verus!
