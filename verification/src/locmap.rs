//! A map keyed by opcode locations, stored as an association list kept
//! sorted by the deterministic location order.

use vstd::prelude::*;
use crate::opcode::{OpcodeLocation, loc_lt, loc_lt_exec, lemma_loc_lt_order};

verus! {

/// The mathematical map held by an association list: later entries override
/// earlier ones. In a well-formed list keys are distinct, so no entry is
/// ever overridden.
pub open spec fn assoc_map<V: View>(s: Seq<(OpcodeLocation, V)>) -> Map<OpcodeLocation, V::V>
    decreases s.len(),
{
    if s.len() == 0 {
        Map::empty()
    } else {
        assoc_map(s.drop_last()).insert(s.last().0, s.last().1@)
    }
}

/// No entry carries the key, so the map has no value for it.
proof fn lemma_assoc_absent<V: View>(s: Seq<(OpcodeLocation, V)>, k: OpcodeLocation)
    requires
        forall|i: int| 0 <= i < s.len() ==> (#[trigger] s[i]).0 != k,
    ensures
        !assoc_map(s).contains_key(k),
    decreases s.len(),
{
    if s.len() > 0 {
        lemma_assoc_absent(s.drop_last(), k);
    }
}

/// The entry at `i` decides the map's value for its key when no later entry
/// shares that key.
proof fn lemma_assoc_get<V: View>(s: Seq<(OpcodeLocation, V)>, i: int)
    requires
        0 <= i < s.len(),
        forall|j: int| i < j < s.len() ==> (#[trigger] s[j]).0 != s[i].0,
    ensures
        assoc_map(s).contains_key(s[i].0),
        assoc_map(s)[s[i].0] == s[i].1@,
    decreases s.len(),
{
    if i < s.len() - 1 {
        lemma_assoc_get(s.drop_last(), i);
    }
}

/// Inserting an entry with a fresh key anywhere in the list inserts its
/// value in the map.
proof fn lemma_assoc_insert<V: View>(
    s: Seq<(OpcodeLocation, V)>,
    i: int,
    k: OpcodeLocation,
    v: V,
)
    requires
        0 <= i <= s.len(),
        forall|j: int| 0 <= j < s.len() ==> (#[trigger] s[j]).0 != k,
    ensures
        assoc_map(s.insert(i, (k, v))) =~= assoc_map(s).insert(k, v@),
    decreases s.len(),
{
    let t = s.insert(i, (k, v));
    if i == s.len() {
        assert(t =~= s.push((k, v)));
        assert(t.drop_last() =~= s);
    } else {
        assert(t.last() == s.last());
        assert(t.drop_last() =~= s.drop_last().insert(i, (k, v)));
        lemma_assoc_insert(s.drop_last(), i, k, v);
        assert(assoc_map(t) =~= assoc_map(s).insert(k, v@));
    }
}

/// Replacing the value of the entry at `i` updates the map at its key when
/// no other entry shares that key.
proof fn lemma_assoc_update<V: View>(s: Seq<(OpcodeLocation, V)>, i: int, v: V)
    requires
        0 <= i < s.len(),
        forall|j: int| 0 <= j < s.len() && j != i ==> (#[trigger] s[j]).0 != s[i].0,
    ensures
        assoc_map(s.update(i, (s[i].0, v))) =~= assoc_map(s).insert(s[i].0, v@),
    decreases s.len(),
{
    let t = s.update(i, (s[i].0, v));
    if i == s.len() - 1 {
        assert(t.drop_last() =~= s.drop_last());
    } else {
        assert(t.last() == s.last());
        assert(t.drop_last() =~= s.drop_last().update(i, (s[i].0, v)));
        lemma_assoc_update(s.drop_last(), i, v);
        assert(assoc_map(t) =~= assoc_map(s).insert(s[i].0, v@));
    }
}

/// A map from opcode locations, held as an association list sorted strictly
/// by the location order.
pub struct LocationMap<V> {
    pub entries: Vec<(OpcodeLocation, V)>,
}

impl<V: View> View for LocationMap<V> {
    type V = Map<OpcodeLocation, V::V>;

    open spec fn view(&self) -> Map<OpcodeLocation, V::V> {
        assoc_map(self.entries@)
    }
}

impl<V: View> LocationMap<V> {
    /// Entries are strictly increasing in the location order, so keys are
    /// distinct and the listing order is deterministic.
    pub open spec fn wf(self) -> bool {
        forall|i: int, j: int|
            0 <= i < j < self.entries@.len() ==> loc_lt(
                (#[trigger] self.entries@[i]).0,
                (#[trigger] self.entries@[j]).0,
            )
    }

    /// The empty map.
    pub fn new() -> (r: Self)
        ensures
            r.wf(),
            r@ =~= Map::<OpcodeLocation, V::V>::empty(),
            r.entries@.len() == 0,
    {
        LocationMap { entries: Vec::new() }
    }

    /// The number of entries.
    pub fn len(&self) -> (r: usize)
        ensures
            r == self.entries@.len(),
    {
        self.entries.len()
    }

    /// Binds `key` to `value`, replacing any previous binding.
    pub fn insert(&mut self, key: OpcodeLocation, value: V)
        requires
            old(self).wf(),
        ensures
            final(self).wf(),
            final(self)@ == old(self)@.insert(key, value@),
            final(self)@.dom() == old(self)@.dom().insert(key),
    {
        let ghost orig = self.entries@;
        let mut i: usize = 0;
        let mut stop = false;
        while !stop && i < self.entries.len()
            invariant
                self.entries@ == orig,
                i <= orig.len(),
                forall|j: int| 0 <= j < i ==> loc_lt((#[trigger] orig[j]).0, key),
                stop ==> i < orig.len() && !loc_lt(orig[i as int].0, key),
            decreases orig.len() - i, if stop { 0int } else { 1int },
        {
            if loc_lt_exec(&self.entries[i].0, &key) {
                i += 1;
            } else {
                stop = true;
            }
        }
        proof {
            assert forall|j: int, l: int|
                0 <= j < orig.len() && 0 <= l < orig.len() && j != l implies (#[trigger] orig[j]).0
                != (#[trigger] orig[l]).0 by {
                if j < l {
                    lemma_loc_lt_order(orig[j].0, orig[l].0, key);
                } else {
                    lemma_loc_lt_order(orig[l].0, orig[j].0, key);
                }
            }
        }
        if i < self.entries.len() && self.entries[i].0 == key {
            proof {
                assert forall|j: int|
                    0 <= j < orig.len() && j != i implies (#[trigger] orig[j]).0
                    != orig[i as int].0 by {}
                lemma_assoc_update(orig, i as int, value);
            }
            self.entries.set(i, (key, value));
            proof {
                assert(self.entries@ =~= orig.update(i as int, (orig[i as int].0, value)));
                assert(final(self)@.dom() =~= old(self)@.dom().insert(key));
            }
        } else {
            proof {
                assert forall|j: int| 0 <= j < orig.len() implies (#[trigger] orig[j]).0
                    != key by {
                    if j >= i {
                        lemma_loc_lt_order(orig[i as int].0, key, orig[j].0);
                        lemma_loc_lt_order(key, orig[i as int].0, orig[j].0);
                        if j > i {
                            lemma_loc_lt_order(key, orig[j].0, orig[j].0);
                        }
                    }
                }
                lemma_assoc_insert(orig, i as int, key, value);
            }
            self.entries.insert(i, (key, value));
            proof {
                assert forall|a: int, b: int|
                    0 <= a < b < self.entries@.len() implies loc_lt(
                    (#[trigger] self.entries@[a]).0,
                    (#[trigger] self.entries@[b]).0,
                ) by {
                    if a == i {
                        if i < orig.len() {
                            lemma_loc_lt_order(orig[i as int].0, key, orig[b - 1].0);
                            lemma_loc_lt_order(key, orig[i as int].0, orig[b - 1].0);
                        }
                    } else if b == i {
                    } else if a < i && b > i {
                        lemma_loc_lt_order(orig[a].0, orig[i as int].0, key);
                    }
                }
                assert(final(self)@.dom() =~= old(self)@.dom().insert(key));
            }
        }
    }

    /// The value bound to `key`, if any.
    pub fn get(&self, key: &OpcodeLocation) -> (r: Option<&V>)
        requires
            self.wf(),
        ensures
            match r {
                Some(v) => self@.contains_key(*key) && v@ == self@[*key],
                None => !self@.contains_key(*key),
            },
    {
        let mut i: usize = 0;
        while i < self.entries.len()
            invariant
                i <= self.entries@.len(),
                self.wf(),
                forall|j: int| 0 <= j < i ==> (#[trigger] self.entries@[j]).0 != *key,
            decreases self.entries@.len() - i,
        {
            if self.entries[i].0 == *key {
                proof {
                    assert forall|j: int|
                        i < j < self.entries@.len() implies (#[trigger] self.entries@[j]).0
                        != self.entries@[i as int].0 by {
                        lemma_loc_lt_order(
                            self.entries@[i as int].0,
                            self.entries@[j].0,
                            self.entries@[j].0,
                        );
                    }
                    lemma_assoc_get(self.entries@, i as int);
                }
                return Some(&self.entries[i].1);
            }
            i += 1;
        }
        proof {
            lemma_assoc_absent(self.entries@, *key);
        }
        None
    }
}

} // verus!
