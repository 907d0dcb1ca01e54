//! A plain model of the data that a Lua table holds: the entries under
//! string keys, and the entries under integer keys in the order they come.

use vstd::prelude::*;

verus! {

/// A value of a Lua table entry.
#[derive(Debug)]
pub enum LuaValue {
    String(String),
    /// A Lua float, held as the bit pattern of its IEEE 754 double.
    Number(u64),
    Integer(i64),
    List(Vec<LuaValue>),
    Table(Box<LuaStruct>),
    Boolean(bool),
}

/// The key of a Lua table entry that the model keeps.
#[derive(Debug)]
pub enum LuaKey {
    Integer(i64),
    String(String),
}

/// The entries of a Lua table: `data` under string keys, `list` the values
/// under integer keys, in the order they were added.
#[derive(Debug)]
pub struct LuaStruct {
    pub data: Vec<(String, LuaValue)>,
    pub list: Vec<LuaValue>,
}

/// The integer that `v` holds, if it holds one.
pub open spec fn int_of(v: LuaValue) -> Option<i64> {
    match v {
        LuaValue::Integer(i) => Some(i),
        _ => None,
    }
}

impl LuaValue {
    /// The integer held, if this is an integer.
    pub fn as_int(&self) -> (r: Option<i64>)
        ensures
            r == int_of(*self),
    {
        if let LuaValue::Integer(i) = self {
            Some(*i)
        } else {
            None
        }
    }
}

/// The keys of the entries, in order.
pub open spec fn keys_of(data: Seq<(String, LuaValue)>) -> Seq<Seq<char>> {
    data.map_values(|e: (String, LuaValue)| e.0@)
}

/// Whether `i` is the first position of `key` in `keys`.
pub open spec fn is_first_index<K>(keys: Seq<K>, key: K, i: int) -> bool {
    &&& 0 <= i < keys.len()
    &&& keys[i] == key
    &&& forall|j: int| 0 <= j < i ==> keys[j] != key
}

/// The first position of `key` in `keys`, if it occurs there.
pub open spec fn first_index<K>(keys: Seq<K>, key: K) -> Option<int> {
    if exists|i: int| is_first_index(keys, key, i) {
        Some(choose|i: int| is_first_index(keys, key, i))
    } else {
        None
    }
}

pub proof fn lemma_first_index_found<K>(keys: Seq<K>, key: K, i: int)
    requires
        0 <= i < keys.len(),
        keys[i] == key,
        forall|j: int| 0 <= j < i ==> keys[j] != key,
    ensures
        first_index(keys, key) == Some(i),
{
    assert(is_first_index(keys, key, i));
    let c = choose|c: int| is_first_index(keys, key, c);
    assert(is_first_index(keys, key, c));
    if c < i {
        assert(keys[c] != key);
    } else if c > i {
        assert(keys[i] != key);
    }
}

pub proof fn lemma_first_index_absent<K>(keys: Seq<K>, key: K)
    requires
        forall|j: int| 0 <= j < keys.len() ==> keys[j] != key,
    ensures
        first_index(keys, key) is None,
{
}

/// A key that occurs has a first position.
pub proof fn lemma_first_index_least<K>(keys: Seq<K>, key: K, i: int)
    requires
        0 <= i < keys.len(),
        keys[i] == key,
    ensures
        first_index(keys, key) is Some,
    decreases i,
{
    if exists|j: int| 0 <= j < i && keys[j] == key {
        let j = choose|j: int| 0 <= j < i && keys[j] == key;
        lemma_first_index_least(keys, key, j);
    } else {
        lemma_first_index_found(keys, key, i);
    }
}

pub proof fn lemma_first_index_in_range<K>(keys: Seq<K>, key: K)
    ensures
        first_index(keys, key) matches Some(i) ==> is_first_index(keys, key, i),
{
}

/// The value that `r` refers to, if any.
pub open spec fn copied(r: Option<&LuaValue>) -> Option<LuaValue> {
    match r {
        Some(v) => Some(*v),
        None => None,
    }
}

/// The value that `data` holds under `key`: the one of its first entry with
/// that key.
pub open spec fn lookup(data: Seq<(String, LuaValue)>, key: Seq<char>) -> Option<LuaValue> {
    match first_index(keys_of(data), key) {
        Some(i) => Some(data[i].1),
        None => None,
    }
}

/// `data` with `value` under `key`: the value of the first entry with that
/// key is replaced, or a new entry is added at the end.
pub open spec fn with_entry(data: Seq<(String, LuaValue)>, key: String, value: LuaValue) -> Seq<
    (String, LuaValue),
> {
    match first_index(keys_of(data), key@) {
        Some(i) => data.update(i, (data[i].0, value)),
        None => data.push((key, value)),
    }
}

/// Reading a key back after a value was put under it gives that value, and
/// the values under every other key are as they were.
pub proof fn lemma_lookup_with_entry(
    data: Seq<(String, LuaValue)>,
    key: String,
    value: LuaValue,
    other: Seq<char>,
)
    ensures
        lookup(with_entry(data, key, value), key@) == Some(value),
        other != key@ ==> lookup(with_entry(data, key, value), other) == lookup(data, other),
{
    let keys = keys_of(data);
    let after = with_entry(data, key, value);
    match first_index(keys, key@) {
        Some(i) => {
            lemma_first_index_in_range(keys, key@);
            assert(keys_of(after) =~= keys);
            if other != key@ {
                lemma_first_index_in_range(keys, other);
            }
        },
        None => {
            assert(keys_of(after) =~= keys.push(key@));
            assert forall|j: int| 0 <= j < keys.len() implies keys[j] != key@ by {
                if keys[j] == key@ {
                    lemma_first_index_least(keys, key@, j);
                }
            }
            lemma_first_index_found(keys_of(after), key@, keys.len() as int);
            if other != key@ {
                lemma_first_index_in_range(keys, other);
                match first_index(keys, other) {
                    Some(j) => {
                        lemma_first_index_found(keys_of(after), other, j);
                    },
                    None => {
                        assert forall|j: int| 0 <= j < keys_of(after).len() implies keys_of(
                            after,
                        )[j] != other by {
                            if j < keys.len() && keys[j] == other {
                                lemma_first_index_least(keys, other, j);
                            }
                        }
                        lemma_first_index_absent(keys_of(after), other);
                    },
                }
            }
        },
    }
}

/// A value added under an integer key is read back at the last position of
/// the list, and the values before it are unchanged.
pub proof fn lemma_list_read_after_push(list: Seq<LuaValue>, value: LuaValue)
    ensures
        list.push(value)[list.len() as int] == value,
        forall|i: int| 0 <= i < list.len() ==> #[trigger] list.push(value)[i] == list[i],
{
}

impl LuaStruct {
    /// A table with no entries.
    pub fn new() -> (r: Self)
        ensures
            r.data@ == Seq::<(String, LuaValue)>::empty(),
            r.list@ == Seq::<LuaValue>::empty(),
    {
        LuaStruct { data: Vec::new(), list: Vec::new() }
    }

    /// The position of the first entry under `key`.
    fn position(&self, key: &String) -> (r: Option<usize>)
        ensures
            match r {
                Some(i) => first_index(keys_of(self.data@), key@) == Some(i as int),
                None => first_index(keys_of(self.data@), key@) is None,
            },
    {
        let ghost keys = keys_of(self.data@);
        let mut i: usize = 0;
        while i < self.data.len()
            invariant
                i <= self.data@.len(),
                keys == keys_of(self.data@),
                forall|j: int| 0 <= j < i ==> keys[j] != key@,
            decreases self.data@.len() - i,
        {
            if self.data[i].0 == *key {
                proof {
                    lemma_first_index_found(keys, key@, i as int);
                }
                return Some(i);
            }
            i += 1;
        }
        proof {
            lemma_first_index_absent(keys, key@);
        }
        None
    }

    /// The value under the string key `key`.
    pub fn get(&self, key: &str) -> (r: Option<&LuaValue>)
        ensures
            copied(r) == lookup(self.data@, key@),
    {
        let owned = key.to_owned();
        match self.position(&owned) {
            Some(i) => Some(&self.data[i].1),
            None => None,
        }
    }

    /// The value at position `index` of the entries under integer keys.
    pub fn get_index(&self, index: usize) -> (r: Option<&LuaValue>)
        ensures
            copied(r) == (if index < self.list@.len() {
                Some(self.list@[index as int])
            } else {
                None
            }),
    {
        if index < self.list.len() {
            Some(&self.list[index])
        } else {
            None
        }
    }

    /// Adds the entry `key = value`: a value under an integer key goes to the
    /// end of `list`; a value under a string key replaces the value of the
    /// first entry with that key, or is added as a new entry at the end.
    pub fn insert_entry(&mut self, key: LuaKey, value: LuaValue)
        ensures
            match key {
                LuaKey::Integer(_) => {
                    &&& final(self).list@ == old(self).list@.push(value)
                    &&& final(self).data@ == old(self).data@
                },
                LuaKey::String(k) => {
                    &&& final(self).list@ == old(self).list@
                    &&& final(self).data@ == with_entry(old(self).data@, k, value)
                },
            },
    {
        match key {
            LuaKey::Integer(_) => {
                self.list.push(value);
            },
            LuaKey::String(k) => {
                match self.position(&k) {
                    Some(i) => {
                        proof {
                            lemma_first_index_in_range(keys_of(self.data@), k@);
                        }
                        let old_key = self.data[i].0.clone();
                        self.data.set(i, (old_key, value));
                    },
                    None => {
                        self.data.push((k, value));
                    },
                }
            },
        }
    }
}

} // verus!
