//! Small maps from names to values.

use vstd::prelude::*;

verus! {

/// A map from names to values, held as a list in which no name occurs twice.
#[derive(Debug)]
pub struct NameMap<V> {
    pub entries: Vec<(String, V)>,
}

/// `name` is the name of the `i`-th entry.
pub open spec fn is_named<V>(entries: Seq<(String, V)>, i: int, name: Seq<char>) -> bool {
    0 <= i < entries.len() && entries[i].0@ == name
}

/// No name occurs twice.
pub open spec fn distinct<V>(entries: Seq<(String, V)>) -> bool {
    forall|i: int, j: int|
        0 <= i < j < entries.len() ==> (#[trigger] entries[i]).0@ != (#[trigger] entries[j]).0@
}

/// The map that a list of entries holds.
pub open spec fn map_of<V>(entries: Seq<(String, V)>) -> Map<Seq<char>, V> {
    Map::new(
        |name: Seq<char>| exists|i: int| is_named(entries, i, name),
        |name: Seq<char>| entries[choose|i: int| is_named(entries, i, name)].1,
    )
}

/// An entry is in the map.
pub proof fn lemma_entry<V>(entries: Seq<(String, V)>, i: int)
    requires
        distinct(entries),
        0 <= i < entries.len(),
    ensures
        map_of(entries).contains_key(entries[i].0@),
        map_of(entries)[entries[i].0@] == entries[i].1,
{
    let name = entries[i].0@;
    assert(is_named(entries, i, name));
    let j = choose|j: int| is_named(entries, j, name);
    assert(is_named(entries, j, name));
    assert(i == j);
}

impl<V> View for NameMap<V> {
    type V = Map<Seq<char>, V>;

    open spec fn view(&self) -> Map<Seq<char>, V> {
        map_of(self.entries@)
    }
}

impl<V: Copy> NameMap<V> {
    /// No name occurs twice.
    pub open spec fn wf(&self) -> bool {
        distinct(self.entries@)
    }

    /// The empty map.
    pub fn new() -> (map: NameMap<V>)
        ensures
            map.wf(),
            map@ =~= Map::<Seq<char>, V>::empty(),
    {
        NameMap { entries: Vec::new() }
    }

    /// A copy of the map.
    pub fn copied(&self) -> (map: NameMap<V>)
        requires
            self.wf(),
        ensures
            map.wf(),
            map@ =~= self@,
            map.entries@.len() == self.entries@.len(),
            forall|i: int|
                0 <= i < self.entries@.len() ==> (#[trigger] map.entries@[i]).0@
                    == self.entries@[i].0@ && map.entries@[i].1 == self.entries@[i].1,
    {
        let mut entries: Vec<(String, V)> = Vec::new();
        let mut i: usize = 0;
        while i < self.entries.len()
            invariant
                i <= self.entries@.len(),
                entries@.len() == i,
                forall|j: int|
                    0 <= j < i ==> (#[trigger] entries@[j]).0@ == self.entries@[j].0@
                        && entries@[j].1 == self.entries@[j].1,
            decreases self.entries@.len() - i,
        {
            entries.push((self.entries[i].0.clone(), self.entries[i].1));
            i = i + 1;
        }
        let map: NameMap<V> = NameMap { entries };
        proof {
            assert(map.wf());
            assert forall|k: Seq<char>| map@.contains_key(k) == self@.contains_key(k) by {
                if map@.contains_key(k) {
                    let j = choose|j: int| is_named(map.entries@, j, k);
                    assert(is_named(self.entries@, j, k));
                }
                if self@.contains_key(k) {
                    let j = choose|j: int| is_named(self.entries@, j, k);
                    assert(is_named(map.entries@, j, k));
                }
            }
            assert forall|k: Seq<char>| map@.contains_key(k) implies map@[k] == self@[k] by {
                let j = choose|j: int| is_named(map.entries@, j, k);
                lemma_entry(map.entries@, j);
                lemma_entry(self.entries@, j);
            }
        }
        map
    }

    /// The place of `name`.
    fn find(&self, name: &String) -> (place: Option<usize>)
        requires
            self.wf(),
        ensures
            match place {
                Some(i) => is_named(self.entries@, i as int, name@) && self@.contains_key(name@)
                    && self@[name@] == self.entries@[i as int].1,
                None => !self@.contains_key(name@) && (forall|j: int|
                    0 <= j < self.entries@.len() ==> (#[trigger] self.entries@[j]).0@ != name@),
            },
    {
        let mut i: usize = 0;
        while i < self.entries.len()
            invariant
                self.wf(),
                i <= self.entries@.len(),
                forall|j: int| 0 <= j < i ==> (#[trigger] self.entries@[j]).0@ != name@,
            decreases self.entries@.len() - i,
        {
            if self.entries[i].0 == *name {
                proof {
                    lemma_entry(self.entries@, i as int);
                }
                return Some(i);
            }
            i = i + 1;
        }
        None
    }

    /// The value of `name`, if it has one.
    pub fn get(&self, name: &str) -> (value: Option<V>)
        requires
            self.wf(),
        ensures
            value == if self@.contains_key(name@) {
                Some(self@[name@])
            } else {
                None
            },
    {
        let name: String = name.to_owned();
        match self.find(&name) {
            Some(i) => Some(self.entries[i].1),
            None => None,
        }
    }

    /// Gives `name` the value `value`.
    pub fn insert(&mut self, name: &str, value: V)
        requires
            old(self).wf(),
        ensures
            final(self).wf(),
            final(self)@ =~= old(self)@.insert(name@, value),
    {
        let name: String = name.to_owned();
        let ghost key = name@;
        match self.find(&name) {
            Some(i) => {
                self.entries.set(i, (name, value));
            },
            None => {
                self.entries.push((name, value));
            },
        }
        proof {
            let before = old(self).entries@;
            let want = old(self)@.insert(key, value);
            assert(self.wf());
            assert forall|k: Seq<char>| self@.contains_key(k) == want.contains_key(k) by {
                if old(self)@.contains_key(k) {
                    let i = choose|i: int| is_named(before, i, k);
                    assert(is_named(self.entries@, i, k));
                }
                if self@.contains_key(k) && k != key {
                    let i = choose|i: int| is_named(self.entries@, i, k);
                    assert(is_named(before, i, k));
                }
                if k == key {
                    if old(self)@.contains_key(key) {
                        let i = choose|i: int| is_named(before, i, k);
                        assert(is_named(self.entries@, i, k));
                    } else {
                        assert(is_named(self.entries@, self.entries@.len() - 1, key));
                    }
                }
            }
            assert forall|k: Seq<char>| self@.contains_key(k) implies self@[k] == want[k] by {
                let i = choose|i: int| is_named(self.entries@, i, k);
                lemma_entry(self.entries@, i);
                if k != key {
                    lemma_entry(before, i);
                }
            }
            assert(self@ =~= want);
        }
    }

    /// Takes `name` out, if it is there.
    pub fn remove(&mut self, name: &str)
        requires
            old(self).wf(),
        ensures
            final(self).wf(),
            final(self)@ =~= old(self)@.remove(name@),
    {
        let name: String = name.to_owned();
        match self.find(&name) {
            Some(i) => {
                let gone = self.entries.remove(i);
                proof {
                    let before = old(self).entries@;
                    let after = self.entries@;
                    assert(after =~= before.remove(i as int));
                    assert(self.wf());
                    let want = old(self)@.remove(name@);
                    assert forall|k: Seq<char>| self@.contains_key(k) == want.contains_key(k) by {
                        if self@.contains_key(k) {
                            let j = choose|j: int| is_named(after, j, k);
                            let was = if j < i {
                                j
                            } else {
                                j + 1
                            };
                            assert(is_named(before, was, k));
                        }
                        if want.contains_key(k) {
                            let j = choose|j: int| is_named(before, j, k);
                            let now = if j < i {
                                j
                            } else {
                                j - 1
                            };
                            assert(is_named(after, now, k));
                        }
                    }
                    assert forall|k: Seq<char>| self@.contains_key(k) implies self@[k]
                        == want[k] by {
                        let j = choose|j: int| is_named(after, j, k);
                        lemma_entry(after, j);
                        let was = if j < i {
                            j
                        } else {
                            j + 1
                        };
                        lemma_entry(before, was);
                    }
                    assert(self@ =~= want);
                }
            },
            None => {
                assert(self@.remove(name@) =~= self@);
            },
        }
    }
}

/// The sum of the values of a finite map.
pub open spec fn total(map: Map<Seq<char>, u64>) -> nat
    decreases map.dom().len(),
{
    if map.dom().finite() && map.dom().len() > 0 {
        let name = map.dom().choose();
        map[name] as nat + total(map.remove(name))
    } else {
        0
    }
}

/// The sum is that of any one value and of the others.
pub proof fn lemma_total_without(map: Map<Seq<char>, u64>, name: Seq<char>)
    requires
        map.dom().finite(),
        map.contains_key(name),
    ensures
        total(map) == map[name] + total(map.remove(name)),
    decreases map.dom().len(),
{
    assert(map.dom().contains(name));
    assert(map.dom().len() > 0) by {
        if map.dom().len() == 0 {
            assert(map.dom() =~= Set::empty());
        }
    }
    let first = map.dom().choose();
    if first != name {
        assert(map.dom().contains(first));
        assert(map.remove(first).dom() =~= map.dom().remove(first));
        assert(map.remove(name).dom() =~= map.dom().remove(name));
        lemma_total_without(map.remove(first), name);
        lemma_total_without(map.remove(name), first);
        assert(map.remove(first).remove(name) =~= map.remove(name).remove(first));
    }
}

/// The sum after a name was given a value.
pub proof fn lemma_total_with(map: Map<Seq<char>, u64>, name: Seq<char>, value: u64)
    requires
        map.dom().finite(),
    ensures
        map.insert(name, value).dom().finite(),
        total(map.insert(name, value)) == value + total(map.remove(name)),
        total(map) == total(map.remove(name)) + if map.contains_key(name) {
            map[name] as nat
        } else {
            0
        },
{
    let more = map.insert(name, value);
    assert(more.dom() =~= map.dom().insert(name));
    lemma_total_without(more, name);
    assert(more.remove(name) =~= map.remove(name));
    if map.contains_key(name) {
        lemma_total_without(map, name);
    } else {
        assert(map.remove(name) =~= map);
    }
}

/// The map of one entry more.
proof fn lemma_map_grows<V>(entries: Seq<(String, V)>)
    requires
        distinct(entries),
        entries.len() > 0,
    ensures
        distinct(entries.drop_last()),
        !map_of(entries.drop_last()).contains_key(entries.last().0@),
        map_of(entries) =~= map_of(entries.drop_last()).insert(
            entries.last().0@,
            entries.last().1,
        ),
{
    let less = entries.drop_last();
    let n = entries.len() - 1;
    let want = map_of(less).insert(entries.last().0@, entries.last().1);
    assert(!map_of(less).contains_key(entries.last().0@)) by {
        if map_of(less).contains_key(entries.last().0@) {
            let j = choose|j: int| is_named(less, j, entries.last().0@);
            assert(entries[j].0@ != entries[n].0@);
        }
    }
    assert forall|k: Seq<char>| map_of(entries).contains_key(k) == want.contains_key(k) by {
        if map_of(entries).contains_key(k) {
            let j = choose|j: int| is_named(entries, j, k);
            if j < n {
                assert(is_named(less, j, k));
            }
        }
        if map_of(less).contains_key(k) {
            let j = choose|j: int| is_named(less, j, k);
            assert(is_named(entries, j, k));
        }
        assert(is_named(entries, n, entries.last().0@));
    }
    assert forall|k: Seq<char>| map_of(entries).contains_key(k) implies map_of(entries)[k]
        == want[k] by {
        let j = choose|j: int| is_named(entries, j, k);
        lemma_entry(entries, j);
        if j < n {
            lemma_entry(less, j);
        }
    }
}

/// The map of a list is finite.
pub proof fn lemma_map_finite<V>(entries: Seq<(String, V)>)
    requires
        distinct(entries),
    ensures
        map_of(entries).dom().finite(),
    decreases entries.len(),
{
    if entries.len() == 0 {
        assert(map_of(entries).dom() =~= Set::empty());
    } else {
        lemma_map_grows(entries);
        lemma_map_finite(entries.drop_last());
        assert(map_of(entries).dom() =~= map_of(entries.drop_last()).dom().insert(
            entries.last().0@,
        ));
    }
}

impl NameMap<u64> {
    /// The sum of the values, or the largest number that fits.
    pub fn total(&self) -> (sum: usize)
        requires
            self.wf(),
        ensures
            sum as int == if total(self@) <= usize::MAX {
                total(self@) as int
            } else {
                usize::MAX as int
            },
    {
        let mut sum: usize = 0;
        let mut i: usize = 0;
        proof {
            let none = self.entries@.take(0);
            assert(map_of(none).dom() =~= Set::empty());
        }
        while i < self.entries.len()
            invariant
                self.wf(),
                i <= self.entries@.len(),
                ({
                    let seen = total(map_of(self.entries@.take(i as int)));
                    sum as int == if seen <= usize::MAX {
                        seen as int
                    } else {
                        usize::MAX as int
                    }
                }),
            decreases self.entries@.len() - i,
        {
            proof {
                let now = self.entries@.take(i + 1);
                assert(now.drop_last() =~= self.entries@.take(i as int));
                assert(distinct(now));
                lemma_map_grows(now);
                lemma_map_finite(now.drop_last());
                let before = map_of(now.drop_last());
                lemma_total_with(before, now.last().0@, now.last().1);
                assert(before.remove(now.last().0@) =~= before);
            }
            let value: u64 = self.entries[i].1;
            let value: usize = if value <= usize::MAX as u64 {
                value as usize
            } else {
                usize::MAX
            };
            sum = sum.saturating_add(value);
            i = i + 1;
        }
        assert(self.entries@.take(i as int) =~= self.entries@);
        sum
    }
}

} // verus!
