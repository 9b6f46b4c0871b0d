//! Records of a zone by their canonical key.

use vstd::prelude::*;
use crate::text;
use crate::text::{is_text_le, same_text};

verus! {

#[derive(Debug, Clone, PartialEq, Eq)]
pub struct RecordKey {
    pub owner: String,
    pub record_type: String,
    pub rdata: String,
}

/// A key as plain values.
pub struct Key {
    pub owner: Seq<char>,
    pub record_type: Seq<char>,
    pub rdata: Seq<char>,
}

impl View for RecordKey {
    type V = Key;

    open spec fn view(&self) -> Key {
        Key { owner: self.owner@, record_type: self.record_type@, rdata: self.rdata@ }
    }
}

/// The order of keys: by owner, then type, then data.
pub open spec fn key_lt(a: Key, b: Key) -> bool {
    text::text_lt(a.owner, b.owner) || (a.owner == b.owner && (text::text_lt(
        a.record_type,
        b.record_type,
    ) || (a.record_type == b.record_type && text::text_lt(a.rdata, b.rdata))))
}

pub proof fn lemma_key_total(a: Key, b: Key)
    ensures
        a == b || key_lt(a, b) || key_lt(b, a),
        !(key_lt(a, b) && key_lt(b, a)),
        !key_lt(a, a),
{
    text::lemma_text_total(a.owner, b.owner);
    text::lemma_text_total(a.record_type, b.record_type);
    text::lemma_text_total(a.rdata, b.rdata);
    text::lemma_text_total(a.owner, a.owner);
}

pub proof fn lemma_key_transitive(a: Key, b: Key, c: Key)
    requires
        key_lt(a, b),
        key_lt(b, c),
    ensures
        key_lt(a, c),
{
    text::lemma_text_total(a.owner, b.owner);
    text::lemma_text_total(b.owner, c.owner);
    if text::text_lt(a.owner, b.owner) && text::text_lt(b.owner, c.owner) {
        text::lemma_text_transitive(a.owner, b.owner, c.owner);
    }
    if text::text_lt(a.record_type, b.record_type) && text::text_lt(b.record_type, c.record_type) {
        text::lemma_text_transitive(a.record_type, b.record_type, c.record_type);
    }
    if text::text_lt(a.rdata, b.rdata) && text::text_lt(b.rdata, c.rdata) {
        text::lemma_text_transitive(a.rdata, b.rdata, c.rdata);
    }
}

pub fn same_key(a: &RecordKey, b: &RecordKey) -> (same: bool)
    ensures
        same == (a@ == b@),
{
    same_text(a.owner.as_str(), b.owner.as_str()) && same_text(
        a.record_type.as_str(),
        b.record_type.as_str(),
    ) && same_text(a.rdata.as_str(), b.rdata.as_str())
}

/// Whether a key stands before another.
pub fn is_key_lt(a: &RecordKey, b: &RecordKey) -> (result: bool)
    ensures
        result == key_lt(a@, b@),
{
    if !same_text(a.owner.as_str(), b.owner.as_str()) {
        return is_text_le(a.owner.as_str(), b.owner.as_str());
    }
    if !same_text(a.record_type.as_str(), b.record_type.as_str()) {
        return is_text_le(a.record_type.as_str(), b.record_type.as_str());
    }
    !same_text(a.rdata.as_str(), b.rdata.as_str()) && is_text_le(
        a.rdata.as_str(),
        b.rdata.as_str(),
    )
}

pub fn copy_key(key: &RecordKey) -> (copy: RecordKey)
    ensures
        copy@ == key@,
{
    RecordKey {
        owner: key.owner.as_str().to_owned(),
        record_type: key.record_type.as_str().to_owned(),
        rdata: key.rdata.as_str().to_owned(),
    }
}

/// A record with its time to live.
#[derive(Debug, Clone)]
pub struct Held {
    pub key: RecordKey,
    pub ttl: u32,
}

/// The records of a zone, each key once, in order.
#[derive(Debug, Clone)]
pub struct RecordTable {
    pub entries: Vec<Held>,
}

pub open spec fn in_order(entries: Seq<Held>) -> bool {
    forall|i: int, j: int|
        0 <= i < j < entries.len() ==> key_lt(
            (#[trigger] entries[i]).key@,
            (#[trigger] entries[j]).key@,
        )
}

pub open spec fn holds_at(entries: Seq<Held>, i: int, key: Key) -> bool {
    0 <= i < entries.len() && entries[i].key@ == key
}

impl View for RecordTable {
    type V = Map<Key, u32>;

    open spec fn view(&self) -> Map<Key, u32> {
        Map::new(
            |key: Key| exists|i: int| #[trigger] holds_at(self.entries@, i, key),
            |key: Key| self.entries@[choose|i: int| #[trigger] holds_at(self.entries@, i, key)].ttl,
        )
    }
}

impl RecordTable {
    pub open spec fn sound(&self) -> bool {
        in_order(self.entries@)
    }

    /// What stands at a place is held.
    pub proof fn lemma_held(&self, i: int)
        requires
            self.sound(),
            0 <= i < self.entries@.len(),
        ensures
            self@.contains_key(self.entries@[i].key@),
            self@[self.entries@[i].key@] == self.entries@[i].ttl,
    {
        let key = self.entries@[i].key@;
        assert(holds_at(self.entries@, i, key));
        let j = choose|j: int| #[trigger] holds_at(self.entries@, j, key);
        lemma_key_total(key, key);
        if j < i {
            assert(key_lt(self.entries@[j].key@, self.entries@[i].key@));
        } else if i < j {
            assert(key_lt(self.entries@[i].key@, self.entries@[j].key@));
        }
    }

    /// What is held stands at a place.
    pub proof fn lemma_place(&self, key: Key) -> (i: int)
        requires
            self.sound(),
            self@.contains_key(key),
        ensures
            0 <= i < self.entries@.len(),
            self.entries@[i].key@ == key,
            self.entries@[i].ttl == self@[key],
    {
        let i = choose|i: int| #[trigger] holds_at(self.entries@, i, key);
        i
    }

    pub fn new() -> (table: Self)
        ensures
            table.sound(),
            table@ == Map::<Key, u32>::empty(),
    {
        let table = RecordTable { entries: Vec::new() };
        assert(table@ =~= Map::<Key, u32>::empty());
        table
    }

    /// The first place whose key does not stand before the wanted one.
    pub fn place(&self, key: &RecordKey) -> (at: usize)
        requires
            self.sound(),
        ensures
            at <= self.entries@.len(),
            forall|i: int| 0 <= i < at ==> key_lt((#[trigger] self.entries@[i]).key@, key@),
            forall|i: int|
                at <= i < self.entries@.len() ==> !key_lt(
                    (#[trigger] self.entries@[i]).key@,
                    key@,
                ),
    {
        let mut low: usize = 0;
        let mut high: usize = self.entries.len();
        while low < high
            invariant
                low <= high <= self.entries@.len(),
                self.sound(),
                forall|i: int| 0 <= i < low ==> key_lt((#[trigger] self.entries@[i]).key@, key@),
                forall|i: int|
                    high <= i < self.entries@.len() ==> !key_lt(
                        (#[trigger] self.entries@[i]).key@,
                        key@,
                    ),
            decreases high - low,
        {
            let middle: usize = low + (high - low) / 2;
            if is_key_lt(&self.entries[middle].key, key) {
                proof {
                    assert forall|i: int| 0 <= i < middle + 1 implies key_lt(
                        (#[trigger] self.entries@[i]).key@,
                        key@,
                    ) by {
                        if i < middle {
                            lemma_key_transitive(
                                self.entries@[i].key@,
                                self.entries@[middle as int].key@,
                                key@,
                            );
                        }
                    }
                }
                low = middle + 1;
            } else {
                proof {
                    assert forall|i: int| middle <= i < self.entries@.len() implies !key_lt(
                        (#[trigger] self.entries@[i]).key@,
                        key@,
                    ) by {
                        if i > middle && key_lt(self.entries@[i].key@, key@) {
                            lemma_key_transitive(
                                self.entries@[middle as int].key@,
                                self.entries@[i].key@,
                                key@,
                            );
                        }
                    }
                }
                high = middle;
            }
        }
        low
    }

    /// The time to live of a key.
    pub fn get(&self, key: &RecordKey) -> (ttl: Option<u32>)
        requires
            self.sound(),
        ensures
            match ttl {
                Some(ttl) => self@.contains_key(key@) && self@[key@] == ttl,
                None => !self@.contains_key(key@),
            },
    {
        let at = self.place(key);
        if at < self.entries.len() && same_key(&self.entries[at].key, key) {
            proof {
                self.lemma_held(at as int);
            }
            return Some(self.entries[at].ttl);
        }
        proof {
            if self@.contains_key(key@) {
                let i = self.lemma_place(key@);
                lemma_key_total(key@, key@);
                assert(i >= at);
                if i > at {
                    assert(key_lt(self.entries@[at as int].key@, self.entries@[i].key@));
                }
            }
        }
        None
    }

    /// Takes in a key that is not held.
    pub fn put(&mut self, key: RecordKey, ttl: u32)
        requires
            old(self).sound(),
            !old(self)@.contains_key(key@),
        ensures
            final(self).sound(),
            final(self)@ == old(self)@.insert(key@, ttl),
    {
        let ghost before = *self;
        let at = self.place(&key);
        let ghost shown = key@;
        let held = Held { key, ttl };
        self.entries.insert(at, held);
        proof {
            let entries = self.entries@;
            assert(entries =~= before.entries@.insert(at as int, held));
            assert forall|i: int, j: int| 0 <= i < j < entries.len() implies key_lt(
                (#[trigger] entries[i]).key@,
                (#[trigger] entries[j]).key@,
            ) by {
                let a = if i < at {
                    i
                } else {
                    i - 1
                };
                let b = if j < at {
                    j
                } else {
                    j - 1
                };
                if i == at {
                    assert(entries[j] == before.entries@[b]);
                    lemma_key_total(before.entries@[b].key@, shown);
                    if before.entries@[b].key@ == shown {
                        before.lemma_held(b);
                    }
                } else if j == at {
                    assert(entries[i] == before.entries@[a]);
                } else {
                    assert(entries[i] == before.entries@[a]);
                    assert(entries[j] == before.entries@[b]);
                }
            }
            assert forall|k: Key| #[trigger] self@.contains_key(k) <==> before@.insert(
                shown,
                ttl,
            ).contains_key(k) by {
                if self@.contains_key(k) && k != shown {
                    let i = self.lemma_place(k);
                    let a = if i < at {
                        i
                    } else {
                        i - 1
                    };
                    assert(entries[i] == before.entries@[a]);
                    before.lemma_held(a);
                }
                if before@.contains_key(k) {
                    let a = before.lemma_place(k);
                    let i = if a < at {
                        a
                    } else {
                        a + 1
                    };
                    assert(entries[i] == before.entries@[a]);
                    self.lemma_held(i);
                }
                self.lemma_held(at as int);
            }
            assert forall|k: Key| self@.contains_key(k) implies #[trigger] self@[k]
                == before@.insert(shown, ttl)[k] by {
                self.lemma_held(at as int);
                if k != shown {
                    let i = self.lemma_place(k);
                    let a = if i < at {
                        i
                    } else {
                        i - 1
                    };
                    assert(entries[i] == before.entries@[a]);
                    before.lemma_held(a);
                }
            }
            assert(self@ =~= before@.insert(shown, ttl));
        }
    }
}

} // verus!
