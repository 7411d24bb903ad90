use vstd::prelude::*;
use crate::tx::{copy_bytes, same_bytes};

verus! {

/// The entries of a keyspace: keys with their values, in the order in which
/// they are walked.
pub type Entries = Seq<(Seq<u8>, Seq<u8>)>;

/// No key stands twice among the entries.
pub open spec fn distinct_keys(s: Entries) -> bool {
    forall|i: int, j: int| 0 <= i < j < s.len() ==> (#[trigger] s[i]).0 != (#[trigger] s[j]).0
}

/// Some entry has the key.
pub open spec fn has_key(s: Entries, key: Seq<u8>) -> bool {
    exists|i: int| 0 <= i < s.len() && (#[trigger] s[i]).0 == key
}

/// The entries as a map from key to value.
pub open spec fn to_map(s: Entries) -> Map<Seq<u8>, Seq<u8>>
    decreases s.len(),
{
    if s.len() == 0 {
        Map::empty()
    } else {
        to_map(s.drop_last()).insert(s.last().0, s.last().1)
    }
}

/// The entries after `key` is set to `value`: the entry with that key gets
/// the value where there is one, else a new entry comes last.
pub open spec fn with_entry(s: Entries, key: Seq<u8>, value: Seq<u8>) -> Entries {
    if has_key(s, key) {
        s.update(choose|i: int| 0 <= i < s.len() && (#[trigger] s[i]).0 == key, (key, value))
    } else {
        s.push((key, value))
    }
}

/// The entries without the one that has `key`.
pub open spec fn without_key(s: Entries, key: Seq<u8>) -> Entries {
    if has_key(s, key) {
        s.remove(choose|i: int| 0 <= i < s.len() && (#[trigger] s[i]).0 == key)
    } else {
        s
    }
}

/// The map holds exactly the keys of the entries.
pub proof fn lemma_to_map_dom(s: Entries, key: Seq<u8>)
    ensures
        to_map(s).contains_key(key) <==> has_key(s, key),
        to_map(s).dom().finite(),
    decreases s.len(),
{
    if s.len() > 0 {
        let front = s.drop_last();
        lemma_to_map_dom(front, key);
        if has_key(front, key) {
            let i = choose|i: int| 0 <= i < front.len() && (#[trigger] front[i]).0 == key;
            assert(s[i].0 == key);
        }
        if has_key(s, key) {
            let i = choose|i: int| 0 <= i < s.len() && (#[trigger] s[i]).0 == key;
            if i < s.len() - 1 {
                assert(front[i].0 == key);
            }
        }
    }
}

/// With distinct keys, the map gives each key the value of its entry.
pub proof fn lemma_to_map_value(s: Entries, i: int)
    requires
        distinct_keys(s),
        0 <= i < s.len(),
    ensures
        to_map(s).contains_key(s[i].0),
        to_map(s)[s[i].0] == s[i].1,
    decreases s.len(),
{
    let front = s.drop_last();
    if i < s.len() - 1 {
        lemma_to_map_value(front, i);
        assert(front[i] == s[i]);
    }
}

/// With distinct keys, the map has as many keys as there are entries.
pub proof fn lemma_to_map_len(s: Entries)
    requires
        distinct_keys(s),
    ensures
        to_map(s).dom().finite(),
        to_map(s).len() == s.len(),
    decreases s.len(),
{
    if s.len() > 0 {
        let front = s.drop_last();
        lemma_to_map_len(front);
        lemma_to_map_dom(front, s.last().0);
        if has_key(front, s.last().0) {
            let i = choose|i: int| 0 <= i < front.len() && (#[trigger] front[i]).0 == s.last().0;
            assert(s[i].0 == s[s.len() - 1].0);
        }
    } else {
        assert(to_map(s).dom() =~= Set::empty());
    }
}

/// Setting the value of the entry at `i` sets the value of its key.
pub proof fn lemma_to_map_update(s: Entries, i: int, value: Seq<u8>)
    requires
        distinct_keys(s),
        0 <= i < s.len(),
    ensures
        distinct_keys(s.update(i, (s[i].0, value))),
        to_map(s.update(i, (s[i].0, value))) == to_map(s).insert(s[i].0, value),
    decreases s.len(),
{
    let t = s.update(i, (s[i].0, value));
    assert(distinct_keys(t)) by {
        assert forall|a: int, b: int| 0 <= a < b < t.len() implies (#[trigger] t[a]).0 != (
        #[trigger] t[b]).0 by {
            assert(t[a].0 == s[a].0);
            assert(t[b].0 == s[b].0);
        }
    }
    let front = s.drop_last();
    if i == s.len() - 1 {
        assert(t.drop_last() =~= front);
        assert(to_map(t) =~= to_map(s).insert(s[i].0, value));
    } else {
        lemma_to_map_update(front, i, value);
        assert(t.drop_last() =~= front.update(i, (s[i].0, value)));
        assert(s[i].0 != s[s.len() - 1].0);
        assert(to_map(t) =~= to_map(s).insert(s[i].0, value));
    }
}

/// Taking out the entry at `i` takes out its key.
pub proof fn lemma_to_map_remove(s: Entries, i: int)
    requires
        distinct_keys(s),
        0 <= i < s.len(),
    ensures
        distinct_keys(s.remove(i)),
        to_map(s.remove(i)) == to_map(s).remove(s[i].0),
    decreases s.len(),
{
    let t = s.remove(i);
    assert(distinct_keys(t)) by {
        assert forall|a: int, b: int| 0 <= a < b < t.len() implies (#[trigger] t[a]).0 != (
        #[trigger] t[b]).0 by {
            let a0 = if a < i {
                a
            } else {
                a + 1
            };
            let b0 = if b < i {
                b
            } else {
                b + 1
            };
            assert(t[a] == s[a0]);
            assert(t[b] == s[b0]);
        }
    }
    let front = s.drop_last();
    if i == s.len() - 1 {
        assert(t =~= front);
        lemma_to_map_dom(front, s[i].0);
        if has_key(front, s[i].0) {
            let j = choose|j: int| 0 <= j < front.len() && (#[trigger] front[j]).0 == s[i].0;
            assert(s[j].0 == s[i].0);
        }
        assert(to_map(t) =~= to_map(s).remove(s[i].0));
    } else {
        lemma_to_map_remove(front, i);
        assert(t.drop_last() =~= front.remove(i));
        assert(t.last() == s.last());
        assert(s[i].0 != s[s.len() - 1].0);
        assert(to_map(t) =~= to_map(s).remove(s[i].0));
    }
}

/// With distinct keys, setting a key in the entries sets it in the map.
pub proof fn lemma_with_entry(s: Entries, key: Seq<u8>, value: Seq<u8>)
    requires
        distinct_keys(s),
    ensures
        distinct_keys(with_entry(s, key, value)),
        to_map(with_entry(s, key, value)) == to_map(s).insert(key, value),
{
    if has_key(s, key) {
        let i = choose|i: int| 0 <= i < s.len() && (#[trigger] s[i]).0 == key;
        lemma_to_map_update(s, i, value);
    } else {
        let t = s.push((key, value));
        assert(t.drop_last() =~= s);
        assert forall|a: int, b: int| 0 <= a < b < t.len() implies (#[trigger] t[a]).0 != (
        #[trigger] t[b]).0 by {
            if b == s.len() {
                assert(s[a].0 != key);
            }
        }
    }
}

/// With distinct keys, taking a key out of the entries takes it out of the
/// map.
pub proof fn lemma_without_key(s: Entries, key: Seq<u8>)
    requires
        distinct_keys(s),
    ensures
        distinct_keys(without_key(s, key)),
        to_map(without_key(s, key)) == to_map(s).remove(key),
{
    if has_key(s, key) {
        let i = choose|i: int| 0 <= i < s.len() && (#[trigger] s[i]).0 == key;
        lemma_to_map_remove(s, i);
    } else {
        lemma_to_map_dom(s, key);
        assert(to_map(s).remove(key) =~= to_map(s));
    }
}

/// A key with its value.
struct Entry {
    key: Vec<u8>,
    value: Vec<u8>,
}

/// An ordered store of byte-string values under byte-string keys, held in
/// memory: what one keyspace of the ledger's storage holds. A key stands at
/// most once.
pub struct Keyspace {
    entries: Vec<Entry>,
}

impl View for Keyspace {
    type V = Entries;

    closed spec fn view(&self) -> Entries {
        Seq::new(self.entries@.len(), |i: int| (self.entries@[i].key@, self.entries@[i].value@))
    }
}

impl Keyspace {
    #[verifier::type_invariant]
    spec fn keys_stand_once(&self) -> bool {
        distinct_keys(self@)
    }

    /// The keyspace as a map from key to value.
    pub open spec fn map(&self) -> Map<Seq<u8>, Seq<u8>> {
        to_map(self@)
    }

    /// An empty keyspace.
    pub fn new() -> (r: Keyspace)
        ensures
            r@ == Seq::<(Seq<u8>, Seq<u8>)>::empty(),
            r.map() == Map::<Seq<u8>, Seq<u8>>::empty(),
    {
        let r = Keyspace { entries: Vec::new() };
        assert(r@ =~= Seq::<(Seq<u8>, Seq<u8>)>::empty());
        r
    }

    /// The number of entries. No key stands twice among them.
    pub fn len(&self) -> (r: usize)
        ensures
            r == self@.len(),
            distinct_keys(self@),
            self.map().dom().finite(),
            self.map().len() == r,
    {
        proof {
            use_type_invariant(self);
            lemma_to_map_len(self@);
        }
        self.entries.len()
    }

    /// The index of the entry with `key`.
    fn position(&self, key: &[u8]) -> (r: Option<usize>)
        ensures
            match r {
                Some(i) => i < self@.len() && self@[i as int].0 == key@,
                None => !has_key(self@, key@),
            },
    {
        let mut i: usize = 0;
        while i < self.entries.len()
            invariant
                i <= self.entries@.len(),
                forall|j: int| 0 <= j < i ==> (#[trigger] self@[j]).0 != key@,
            decreases self.entries@.len() - i,
        {
            if same_bytes(self.entries[i].key.as_slice(), key) {
                return Some(i);
            }
            i += 1;
        }
        None
    }

    /// Whether the keyspace holds `key`.
    pub fn contains(&self, key: &[u8]) -> (r: bool)
        ensures
            r == has_key(self@, key@),
            r == self.map().contains_key(key@),
    {
        proof {
            lemma_to_map_dom(self@, key@);
        }
        self.position(key).is_some()
    }

    /// The value under `key`.
    pub fn get(&self, key: &[u8]) -> (r: Option<Vec<u8>>)
        ensures
            match r {
                Some(value) => self.map().contains_key(key@) && value@ == self.map()[key@],
                None => !self.map().contains_key(key@),
            },
    {
        proof {
            use_type_invariant(self);
            lemma_to_map_dom(self@, key@);
        }
        match self.position(key) {
            Some(i) => {
                proof {
                    lemma_to_map_value(self@, i as int);
                }
                Some(copy_bytes(&self.entries[i].value))
            },
            None => None,
        }
    }

    /// The key of the entry at `index`.
    pub fn key_at(&self, index: usize) -> (r: &Vec<u8>)
        requires
            index < self@.len(),
        ensures
            r@ == self@[index as int].0,
    {
        &self.entries[index].key
    }

    /// The value of the entry at `index`.
    pub fn value_at(&self, index: usize) -> (r: &Vec<u8>)
        requires
            index < self@.len(),
        ensures
            r@ == self@[index as int].1,
    {
        &self.entries[index].value
    }

    /// Sets the value under `key`.
    pub fn insert(&mut self, key: Vec<u8>, value: Vec<u8>)
        ensures
            final(self)@ == with_entry(old(self)@, key@, value@),
            final(self).map() == old(self).map().insert(key@, value@),
    {
        proof {
            use_type_invariant(&*self);
            lemma_with_entry(self@, key@, value@);
        }
        let ghost before = self@;
        match self.position(key.as_slice()) {
            Some(i) => {
                proof {
                    let c = choose|c: int| 0 <= c < before.len() && (#[trigger] before[c]).0 == key@;
                    assert(c == i);
                }
                let mut entries: Vec<Entry> = Vec::new();
                std::mem::swap(&mut self.entries, &mut entries);
                entries.set(i, Entry { key, value });
                let ghost after = Seq::new(
                    entries@.len(),
                    |j: int| (entries@[j].key@, entries@[j].value@),
                );
                assert(after =~= with_entry(before, key@, value@));
                self.entries = entries;
            },
            None => {
                let mut entries: Vec<Entry> = Vec::new();
                std::mem::swap(&mut self.entries, &mut entries);
                entries.push(Entry { key, value });
                let ghost after = Seq::new(
                    entries@.len(),
                    |j: int| (entries@[j].key@, entries@[j].value@),
                );
                assert(after =~= with_entry(before, key@, value@));
                self.entries = entries;
            },
        }
    }

    /// Takes out the entry under `key`, if there is one.
    pub fn remove(&mut self, key: &[u8])
        ensures
            final(self)@ == without_key(old(self)@, key@),
            final(self).map() == old(self).map().remove(key@),
    {
        proof {
            use_type_invariant(&*self);
            lemma_without_key(self@, key@);
        }
        let ghost before = self@;
        match self.position(key) {
            Some(i) => {
                proof {
                    let c = choose|c: int| 0 <= c < before.len() && (#[trigger] before[c]).0 == key@;
                    assert(c == i);
                }
                let mut entries: Vec<Entry> = Vec::new();
                std::mem::swap(&mut self.entries, &mut entries);
                entries.remove(i);
                let ghost after = Seq::new(
                    entries@.len(),
                    |j: int| (entries@[j].key@, entries@[j].value@),
                );
                assert(after =~= without_key(before, key@));
                self.entries = entries;
            },
            None => {},
        }
    }

    /// A copy of the keyspace.
    pub fn duplicate(&self) -> (r: Keyspace)
        ensures
            r@ == self@,
    {
        proof {
            use_type_invariant(self);
        }
        let mut entries: Vec<Entry> = Vec::new();
        let mut i: usize = 0;
        while i < self.entries.len()
            invariant
                i <= self.entries@.len(),
                entries@.len() == i,
                forall|j: int|
                    0 <= j < i ==> (#[trigger] entries@[j]).key@ == self.entries@[j].key@
                        && entries@[j].value@ == self.entries@[j].value@,
            decreases self.entries@.len() - i,
        {
            entries.push(
                Entry {
                    key: copy_bytes(&self.entries[i].key),
                    value: copy_bytes(&self.entries[i].value),
                },
            );
            i += 1;
        }
        let ghost built = Seq::new(entries@.len(), |i: int| (entries@[i].key@, entries@[i].value@));
        assert(built =~= self@);
        Keyspace { entries }
    }
}

} // verus!
