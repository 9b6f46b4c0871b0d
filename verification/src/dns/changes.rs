//! What changed between two snapshots of a zone.

use vstd::prelude::*;
use crate::dns::table;
use crate::dns::table::{copy_key, is_key_lt, same_key, Key, RecordKey, RecordTable};

verus! {

#[derive(Debug, Clone)]
pub struct Change {
    pub kind: &'static str,
    pub key: RecordKey,
    pub old_ttl: Option<u32>,
    pub new_ttl: Option<u32>,
}

/// A change as plain values.
pub struct Difference {
    pub kind: Seq<char>,
    pub key: Key,
    pub old_ttl: Option<u32>,
    pub new_ttl: Option<u32>,
}

impl View for Change {
    type V = Difference;

    open spec fn view(&self) -> Difference {
        Difference {
            kind: self.kind@,
            key: self.key@,
            old_ttl: self.old_ttl,
            new_ttl: self.new_ttl,
        }
    }
}

pub open spec fn differences(changes: Seq<Change>) -> Seq<Difference> {
    changes.map_values(|change: Change| change@)
}

/// How a key changed, if it did.
pub open spec fn difference_at(old: Map<Key, u32>, new: Map<Key, u32>, key: Key) -> Option<
    Difference,
> {
    if old.contains_key(key) && !new.contains_key(key) {
        Some(
            Difference { kind: "removal"@, key, old_ttl: Some(old[key]), new_ttl: None },
        )
    } else if old.contains_key(key) && old[key] != new[key] {
        Some(
            Difference { kind: "ttl"@, key, old_ttl: Some(old[key]), new_ttl: Some(new[key]) },
        )
    } else if !old.contains_key(key) && new.contains_key(key) {
        Some(
            Difference { kind: "addition"@, key, old_ttl: None, new_ttl: Some(new[key]) },
        )
    } else {
        None
    }
}

/// All that changed, in the order of the keys.
pub open spec fn are_differences(
    old: Map<Key, u32>,
    new: Map<Key, u32>,
    found: Seq<Difference>,
) -> bool {
    &&& forall|i: int, j: int|
        0 <= i < j < found.len() ==> table::key_lt(
            (#[trigger] found[i]).key,
            (#[trigger] found[j]).key,
        )
    &&& forall|change: Difference| #[trigger]
        found.contains(change) <==> difference_at(old, new, change.key) == Some(change)
}

/// A key that stands before a place of each table has been passed.
spec fn passed(old: RecordTable, new: RecordTable, i: int, j: int, key: Key) -> bool {
    &&& forall|k: int| i <= k < old.entries@.len() ==> table::key_lt(key, (#[trigger] old.entries@[k]).key@)
    &&& forall|k: int| j <= k < new.entries@.len() ==> table::key_lt(key, (#[trigger] new.entries@[k]).key@)
}

/// What is found up to a place of each table.
spec fn found_so_far(
    old: RecordTable,
    new: RecordTable,
    i: int,
    j: int,
    found: Seq<Difference>,
) -> bool {
    &&& 0 <= i <= old.entries@.len()
    &&& 0 <= j <= new.entries@.len()
    &&& forall|a: int, b: int|
        0 <= a < b < found.len() ==> table::key_lt(
            (#[trigger] found[a]).key,
            (#[trigger] found[b]).key,
        )
    &&& forall|a: int|
        0 <= a < found.len() ==> difference_at(old@, new@, (#[trigger] found[a]).key) == Some(
            found[a],
        ) && passed(old, new, i, j, found[a].key)
    &&& forall|k: int|
        0 <= k < i && difference_at(old@, new@, (#[trigger] old.entries@[k]).key@) is Some
            ==> found.contains(difference_at(old@, new@, old.entries@[k].key@)->0)
    &&& forall|k: int|
        0 <= k < j && difference_at(old@, new@, (#[trigger] new.entries@[k]).key@) is Some
            ==> found.contains(difference_at(old@, new@, new.entries@[k].key@)->0)
    &&& forall|k: int, m: int|
        0 <= k < i && j <= m < new.entries@.len() ==> table::key_lt(
            (#[trigger] old.entries@[k]).key@,
            (#[trigger] new.entries@[m]).key@,
        )
    &&& forall|k: int, m: int|
        i <= k < old.entries@.len() && 0 <= m < j ==> table::key_lt(
            (#[trigger] new.entries@[m]).key@,
            (#[trigger] old.entries@[k]).key@,
        )
}

proof fn lemma_push_contains(found: Seq<Difference>, change: Difference)
    ensures
        forall|other: Difference| #[trigger] found.push(change).contains(other)
            <==> found.contains(other) || other == change,
{
    let longer = found.push(change);
    assert forall|other: Difference| #[trigger] longer.contains(other) <==> found.contains(other)
        || other == change by {
        if found.contains(other) {
            let k = choose|k: int| 0 <= k < found.len() && found[k] == other;
            assert(longer[k] == other);
        }
        assert(longer[found.len() as int] == change);
        if longer.contains(other) {
            let k = choose|k: int| 0 <= k < longer.len() && longer[k] == other;
            if k < found.len() {
                assert(found[k] == other);
            }
        }
    }
}

/// One key of the first table that is not in the second.
proof fn lemma_old_step(
    old: RecordTable,
    new: RecordTable,
    i: int,
    j: int,
    found: Seq<Difference>,
)
    requires
        old.sound(),
        new.sound(),
        found_so_far(old, new, i, j, found),
        i < old.entries@.len(),
        j < new.entries@.len() ==> table::key_lt(old.entries@[i].key@, new.entries@[j].key@),
    ensures
        !new@.contains_key(old.entries@[i].key@),
        difference_at(old@, new@, old.entries@[i].key@) is Some,
        found_so_far(
            old,
            new,
            i + 1,
            j,
            found.push(difference_at(old@, new@, old.entries@[i].key@)->0),
        ),
{
    let key = old.entries@[i].key@;
    old.lemma_held(i);
    assert forall|m: int| j <= m < new.entries@.len() implies table::key_lt(
        key,
        (#[trigger] new.entries@[m]).key@,
    ) by {
        if m > j {
            table::lemma_key_transitive(key, new.entries@[j].key@, new.entries@[m].key@);
        }
    }
    if new@.contains_key(key) {
        let m = new.lemma_place(key);
        table::lemma_key_total(key, key);
        if m < j {
            assert(table::key_lt(new.entries@[m].key@, old.entries@[i].key@));
        }
    }
    let change = difference_at(old@, new@, key)->0;
    lemma_push_contains(found, change);
    let longer = found.push(change);
    assert forall|a: int, b: int| 0 <= a < b < longer.len() implies table::key_lt(
        (#[trigger] longer[a]).key,
        (#[trigger] longer[b]).key,
    ) by {
        if b == found.len() {
            assert(passed(old, new, i, j, found[a].key));
        }
    }
    assert forall|a: int| 0 <= a < longer.len() implies difference_at(
        old@,
        new@,
        (#[trigger] longer[a]).key,
    ) == Some(longer[a]) && passed(old, new, i + 1, j, longer[a].key) by {
        if a < found.len() {
            assert(passed(old, new, i, j, found[a].key));
        }
    }
}

/// One key of the second table that is not in the first.
proof fn lemma_new_step(
    old: RecordTable,
    new: RecordTable,
    i: int,
    j: int,
    found: Seq<Difference>,
)
    requires
        old.sound(),
        new.sound(),
        found_so_far(old, new, i, j, found),
        j < new.entries@.len(),
        i < old.entries@.len() ==> table::key_lt(new.entries@[j].key@, old.entries@[i].key@),
    ensures
        !old@.contains_key(new.entries@[j].key@),
        difference_at(old@, new@, new.entries@[j].key@) is Some,
        found_so_far(
            old,
            new,
            i,
            j + 1,
            found.push(difference_at(old@, new@, new.entries@[j].key@)->0),
        ),
{
    let key = new.entries@[j].key@;
    new.lemma_held(j);
    assert forall|k: int| i <= k < old.entries@.len() implies table::key_lt(
        key,
        (#[trigger] old.entries@[k]).key@,
    ) by {
        if k > i {
            table::lemma_key_transitive(key, old.entries@[i].key@, old.entries@[k].key@);
        }
    }
    if old@.contains_key(key) {
        let k = old.lemma_place(key);
        table::lemma_key_total(key, key);
        if k < i {
            assert(table::key_lt(old.entries@[k].key@, new.entries@[j].key@));
        }
    }
    let change = difference_at(old@, new@, key)->0;
    lemma_push_contains(found, change);
    let longer = found.push(change);
    assert forall|a: int, b: int| 0 <= a < b < longer.len() implies table::key_lt(
        (#[trigger] longer[a]).key,
        (#[trigger] longer[b]).key,
    ) by {
        if b == found.len() {
            assert(passed(old, new, i, j, found[a].key));
        }
    }
    assert forall|a: int| 0 <= a < longer.len() implies difference_at(
        old@,
        new@,
        (#[trigger] longer[a]).key,
    ) == Some(longer[a]) && passed(old, new, i, j + 1, longer[a].key) by {
        if a < found.len() {
            assert(passed(old, new, i, j, found[a].key));
        }
    }
}

/// One key of both tables.
proof fn lemma_both_step(
    old: RecordTable,
    new: RecordTable,
    i: int,
    j: int,
    found: Seq<Difference>,
    after: Seq<Difference>,
)
    requires
        old.sound(),
        new.sound(),
        found_so_far(old, new, i, j, found),
        i < old.entries@.len(),
        j < new.entries@.len(),
        old.entries@[i].key@ == new.entries@[j].key@,
        after == match difference_at(old@, new@, old.entries@[i].key@) {
            Some(change) => found.push(change),
            None => found,
        },
    ensures
        found_so_far(old, new, i + 1, j + 1, after),
{
    let key = old.entries@[i].key@;
    if difference_at(old@, new@, key) is Some {
        lemma_push_contains(found, difference_at(old@, new@, key)->0);
    }
    assert forall|k: int| i < k < old.entries@.len() implies table::key_lt(
        key,
        (#[trigger] old.entries@[k]).key@,
    ) by {
        assert(table::key_lt(old.entries@[i].key@, old.entries@[k].key@));
    }
    assert forall|m: int| j < m < new.entries@.len() implies table::key_lt(
        key,
        (#[trigger] new.entries@[m]).key@,
    ) by {
        assert(table::key_lt(new.entries@[j].key@, new.entries@[m].key@));
    }
    assert forall|a: int, b: int| 0 <= a < b < after.len() implies table::key_lt(
        (#[trigger] after[a]).key,
        (#[trigger] after[b]).key,
    ) by {
        assert(passed(old, new, i, j, found[a].key));
    }
    assert forall|a: int| 0 <= a < after.len() implies difference_at(
        old@,
        new@,
        (#[trigger] after[a]).key,
    ) == Some(after[a]) && passed(old, new, i + 1, j + 1, after[a].key) by {
        if a < found.len() {
            assert(passed(old, new, i, j, found[a].key));
        }
    }
}

/// Finds all that changed, in the order of the keys.
pub fn compare_records(old: &RecordTable, new: &RecordTable) -> (changes: Vec<Change>)
    requires
        old.sound(),
        new.sound(),
    ensures
        are_differences(old@, new@, differences(changes@)),
{
    let mut changes: Vec<Change> = Vec::new();
    let mut i: usize = 0;
    let mut j: usize = 0;
    assert(differences(changes@) =~= Seq::empty());
    while i < old.entries.len() || j < new.entries.len()
        invariant
            i <= old.entries@.len(),
            j <= new.entries@.len(),
            old.sound(),
            new.sound(),
            found_so_far(*old, *new, i as int, j as int, differences(changes@)),
        decreases old.entries@.len() - i + new.entries@.len() - j,
    {
        let ghost before = changes@;
        let ghost found = differences(changes@);
        let take_old: bool = i < old.entries.len() && (j >= new.entries.len() || is_key_lt(
            &old.entries[i].key,
            &new.entries[j].key,
        ));
        if take_old {
            proof {
                lemma_old_step(*old, *new, i as int, j as int, found);
                old.lemma_held(i as int);
            }
            let change = Change {
                kind: "removal",
                key: copy_key(&old.entries[i].key),
                old_ttl: Some(old.entries[i].ttl),
                new_ttl: None,
            };
            changes.push(change);
            assert(differences(changes@) =~= found.push(change@));
            i = i + 1;
        } else if i < old.entries.len() && same_key(&old.entries[i].key, &new.entries[j].key) {
            let old_ttl = old.entries[i].ttl;
            let new_ttl = new.entries[j].ttl;
            proof {
                old.lemma_held(i as int);
                new.lemma_held(j as int);
            }
            if old_ttl != new_ttl {
                let change = Change {
                    kind: "ttl",
                    key: copy_key(&old.entries[i].key),
                    old_ttl: Some(old_ttl),
                    new_ttl: Some(new_ttl),
                };
                changes.push(change);
                assert(differences(changes@) =~= found.push(change@));
            }
            proof {
                lemma_both_step(*old, *new, i as int, j as int, found, differences(changes@));
            }
            i = i + 1;
            j = j + 1;
        } else {
            proof {
                if i < old.entries@.len() {
                    table::lemma_key_total(old.entries@[i as int].key@, new.entries@[j as int].key@);
                }
                lemma_new_step(*old, *new, i as int, j as int, found);
                new.lemma_held(j as int);
            }
            let change = Change {
                kind: "addition",
                key: copy_key(&new.entries[j].key),
                old_ttl: None,
                new_ttl: Some(new.entries[j].ttl),
            };
            changes.push(change);
            assert(differences(changes@) =~= found.push(change@));
            j = j + 1;
        }
    }
    proof {
        let found = differences(changes@);
        assert forall|change: Difference| #[trigger]
            found.contains(change) <==> difference_at(old@, new@, change.key) == Some(change) by {
            if found.contains(change) {
                let a = choose|a: int| 0 <= a < found.len() && found[a] == change;
                assert(difference_at(old@, new@, found[a].key) == Some(found[a]));
            }
            if difference_at(old@, new@, change.key) == Some(change) {
                if old@.contains_key(change.key) {
                    let k = old.lemma_place(change.key);
                    assert(difference_at(old@, new@, old.entries@[k].key@) is Some);
                } else {
                    let k = new.lemma_place(change.key);
                    assert(difference_at(old@, new@, new.entries@[k].key@) is Some);
                }
            }
        }
    }
    changes
}

} // verus!
