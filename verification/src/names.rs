//! Maps from names to what bears them.

use vstd::prelude::*;

verus! {

/// A map from names to values. It can be walked, in an order that is part of
/// no contract.
#[derive(Debug)]
pub struct NameMap<V> {
    entries: Vec<(String, V)>,
}

/// Whether `name` stands at position `i` of `entries`.
spec fn is_at<V>(entries: Seq<(String, V)>, name: Seq<char>, i: int) -> bool {
    0 <= i < entries.len() && entries[i].0@ == name
}

/// No name occurs twice in `entries`.
spec fn distinct<V>(entries: Seq<(String, V)>) -> bool {
    forall|i: int, j: int|
        0 <= i < j < entries.len() ==> (#[trigger] entries[i]).0@ != (#[trigger] entries[j]).0@
}

/// The map that `entries` spells out.
spec fn as_map<V>(entries: Seq<(String, V)>) -> Map<Seq<char>, V> {
    Map::new(
        |name: Seq<char>| exists|i: int| is_at(entries, name, i),
        |name: Seq<char>| entries[choose|i: int| is_at(entries, name, i)].1,
    )
}

/// A name has the value that stands beside it.
proof fn lemma_at<V>(entries: Seq<(String, V)>, i: int)
    requires
        distinct(entries),
        0 <= i < entries.len(),
    ensures
        as_map(entries).contains_key(entries[i].0@),
        as_map(entries)[entries[i].0@] == entries[i].1,
{
    assert(is_at(entries, entries[i].0@, i));
}

/// A value that changes at its place changes for its name.
proof fn lemma_update<V>(entries: Seq<(String, V)>, i: int, after: Seq<(String, V)>)
    requires
        distinct(entries),
        0 <= i < entries.len(),
        after.len() == entries.len(),
        after[i].0@ == entries[i].0@,
        forall|j: int| 0 <= j < entries.len() && j != i ==> #[trigger] after[j] == entries[j],
    ensures
        distinct(after),
        as_map(after) == as_map(entries).insert(entries[i].0@, after[i].1),
{
    assert forall|name: Seq<char>| #[trigger] as_map(entries).contains_key(name) == as_map(
        after,
    ).contains_key(name) by {
        if as_map(entries).contains_key(name) {
            let j = choose|j: int| is_at(entries, name, j);
            assert(is_at(after, name, j));
        }
        if as_map(after).contains_key(name) {
            let j = choose|j: int| is_at(after, name, j);
            assert(is_at(entries, name, j));
        }
    }
    assert forall|name: Seq<char>| #[trigger] as_map(after).contains_key(name) implies as_map(
        after,
    )[name] == as_map(entries).insert(entries[i].0@, after[i].1)[name] by {
        let j = choose|j: int| is_at(after, name, j);
        lemma_at(after, j);
        lemma_at(entries, j);
    }
    lemma_at(entries, i);
    assert(as_map(after) =~= as_map(entries).insert(entries[i].0@, after[i].1));
}

/// A new name gets its value.
proof fn lemma_push<V>(entries: Seq<(String, V)>, entry: (String, V))
    requires
        distinct(entries),
        forall|i: int| !is_at(entries, entry.0@, i),
    ensures
        distinct(entries.push(entry)),
        as_map(entries.push(entry)) == as_map(entries).insert(entry.0@, entry.1),
{
    let after = entries.push(entry);
    assert forall|i: int| 0 <= i < entries.len() implies (#[trigger] entries[i]).0@ != entry.0@ by {
        assert(!is_at(entries, entry.0@, i));
    }
    assert(is_at(after, entry.0@, entries.len() as int));
    assert forall|name: Seq<char>| as_map(after).contains_key(name) == (#[trigger] as_map(
        entries,
    ).contains_key(name) || name == entry.0@) by {
        if as_map(entries).contains_key(name) {
            let i = choose|i: int| is_at(entries, name, i);
            assert(is_at(after, name, i));
        }
        if as_map(after).contains_key(name) && name != entry.0@ {
            let i = choose|i: int| is_at(after, name, i);
            assert(is_at(entries, name, i));
        }
    }
    assert forall|name: Seq<char>| #[trigger] as_map(after).contains_key(name) implies as_map(
        after,
    )[name] == as_map(entries).insert(entry.0@, entry.1)[name] by {
        let i = choose|i: int| is_at(after, name, i);
        lemma_at(after, i);
        if i < entries.len() {
            lemma_at(entries, i);
        }
    }
    assert(as_map(after) =~= as_map(entries).insert(entry.0@, entry.1));
}

/// A name that is taken out has no value.
proof fn lemma_remove<V>(entries: Seq<(String, V)>, i: int)
    requires
        distinct(entries),
        0 <= i < entries.len(),
    ensures
        distinct(entries.remove(i)),
        as_map(entries.remove(i)) == as_map(entries).remove(entries[i].0@),
{
    let after = entries.remove(i);
    let removed = entries[i].0@;
    assert forall|name: Seq<char>| as_map(after).contains_key(name) == (#[trigger] as_map(
        entries,
    ).contains_key(name) && name != removed) by {
        if as_map(entries).contains_key(name) && name != removed {
            let j = choose|j: int| is_at(entries, name, j);
            assert(is_at(after, name, if j < i { j } else { j - 1 }));
        }
        if as_map(after).contains_key(name) {
            let j = choose|j: int| is_at(after, name, j);
            assert(is_at(entries, name, if j < i { j } else { j + 1 }));
        }
    }
    assert forall|name: Seq<char>| #[trigger] as_map(after).contains_key(name) implies as_map(
        after,
    )[name] == as_map(entries)[name] by {
        let j = choose|j: int| is_at(after, name, j);
        lemma_at(after, j);
        lemma_at(entries, if j < i { j } else { j + 1 });
    }
    assert(as_map(after) =~= as_map(entries).remove(removed));
}

impl<V> View for NameMap<V> {
    type V = Map<Seq<char>, V>;

    closed spec fn view(&self) -> Map<Seq<char>, V> {
        as_map(self.entries@)
    }
}

impl<V> NameMap<V> {
    /// No name occurs twice.
    pub closed spec fn wf(&self) -> bool {
        distinct(self.entries@)
    }

    /// A map without names.
    pub fn new() -> (res: Self)
        ensures
            res.wf(),
            res@ == Map::<Seq<char>, V>::empty(),
    {
        let res = NameMap { entries: Vec::new() };
        assert(res@ =~= Map::<Seq<char>, V>::empty());
        res
    }

    /// The position of `name`.
    fn position(&self, name: &str) -> (res: Option<usize>)
        ensures
            match res {
                Some(i) => is_at(self.entries@, name@, i as int),
                None => forall|i: int| !is_at(self.entries@, name@, i),
            },
    {
        let wanted: String = name.to_owned();
        let mut i: usize = 0;
        while i < self.entries.len()
            invariant
                i <= self.entries@.len(),
                wanted@ == name@,
                forall|j: int| 0 <= j < i ==> !is_at(self.entries@, name@, j),
            decreases self.entries@.len() - i,
        {
            if self.entries[i].0 == wanted {
                return Some(i);
            }
            i += 1;
        }
        None
    }

    /// Whether `name` has a value.
    pub fn contains(&self, name: &str) -> (res: bool)
        ensures
            res == self@.contains_key(name@),
    {
        self.position(name).is_some()
    }

    /// The value of `name`.
    pub fn get(&self, name: &str) -> (res: Option<&V>)
        requires
            self.wf(),
        ensures
            match res {
                Some(value) => self@.contains_key(name@) && *value == self@[name@],
                None => !self@.contains_key(name@),
            },
    {
        match self.position(name) {
            Some(i) => {
                proof {
                    lemma_at(self.entries@, i as int);
                }
                Some(&self.entries[i].1)
            },
            None => None,
        }
    }

    /// The value of `name`, to be changed in place.
    pub fn get_mut(&mut self, name: &str) -> (res: Option<&mut V>)
        requires
            old(self).wf(),
        ensures
            final(self).wf(),
            match res {
                Some(value) => {
                    &&& old(self)@.contains_key(name@)
                    &&& *value == old(self)@[name@]
                    &&& final(self)@ == old(self)@.insert(name@, *final(value))
                },
                None => !old(self)@.contains_key(name@) && *final(self) == *old(self),
            },
    {
        match self.position(name) {
            Some(i) => {
                proof {
                    let before = self.entries@;
                    lemma_at(before, i as int);
                    assert forall|after: Seq<(String, V)>|
                        after.len() == before.len() && after[i as int].0@ == before[i as int].0@ && (
                        forall|j: int|
                            0 <= j < before.len() && j != i ==> #[trigger] after[j]
                                == before[j]) implies distinct(after) && #[trigger] as_map(after)
                        == as_map(before).insert(name@, after[i as int].1) by {
                        lemma_update(before, i as int, after);
                    }
                }
                Some(&mut self.entries[i].1)
            },
            None => None,
        }
    }

    /// The value of `name`, to be changed in place; where it has none, it gets
    /// `value` first.
    pub fn get_or_insert(&mut self, name: &str, value: V) -> (res: &mut V)
        requires
            old(self).wf(),
        ensures
            final(self).wf(),
            *res == if old(self)@.contains_key(name@) {
                old(self)@[name@]
            } else {
                value
            },
            final(self)@ == old(self)@.insert(name@, *final(res)),
    {
        let i: usize = match self.position(name) {
            Some(i) => i,
            None => {
                let i: usize = self.entries.len();
                let entry: (String, V) = (name.to_owned(), value);
                proof {
                    lemma_push(self.entries@, entry);
                }
                self.entries.push(entry);
                i
            },
        };
        proof {
            let before = self.entries@;
            lemma_at(before, i as int);
            assert forall|after: Seq<(String, V)>|
                after.len() == before.len() && after[i as int].0@ == before[i as int].0@ && (forall|
                    j: int,
                |
                    0 <= j < before.len() && j != i ==> #[trigger] after[j]
                        == before[j]) implies distinct(after) && #[trigger] as_map(after) == as_map(
                old(self).entries@,
            ).insert(name@, after[i as int].1) by {
                lemma_update(before, i as int, after);
                assert(as_map(after) =~= as_map(old(self).entries@).insert(
                    name@,
                    after[i as int].1,
                ));
            }
        }
        &mut self.entries[i].1
    }

    /// Gives `name` the value `value`, in place of the one it had.
    pub fn insert(&mut self, name: String, value: V)
        requires
            old(self).wf(),
        ensures
            final(self).wf(),
            final(self)@ == old(self)@.insert(name@, value),
    {
        match self.position(name.as_str()) {
            Some(i) => {
                proof {
                    lemma_update(
                        self.entries@,
                        i as int,
                        self.entries@.update(i as int, (name, value)),
                    );
                }
                self.entries.set(i, (name, value));
            },
            None => {
                proof {
                    lemma_push(self.entries@, (name, value));
                }
                self.entries.push((name, value));
            },
        }
    }

    /// Takes `name` and its value out.
    pub fn remove(&mut self, name: &str)
        requires
            old(self).wf(),
        ensures
            final(self).wf(),
            final(self)@ == old(self)@.remove(name@),
    {
        if let Some(i) = self.position(name) {
            proof {
                lemma_remove(self.entries@, i as int);
            }
            self.entries.remove(i);
        } else {
            assert(self@.remove(name@) =~= self@);
        }
    }

    /// All names, each once.
    pub fn names(&self) -> (res: Vec<String>)
        requires
            self.wf(),
        ensures
            forall|i: int, j: int|
                0 <= i < j < res@.len() ==> (#[trigger] res@[i])@ != (#[trigger] res@[j])@,
            forall|i: int| 0 <= i < res@.len() ==> self@.contains_key((#[trigger] res@[i])@),
            forall|name: Seq<char>| #[trigger]
                self@.contains_key(name) ==> exists|i: int|
                    0 <= i < res@.len() && (#[trigger] res@[i])@ == name,
    {
        let mut res: Vec<String> = Vec::new();
        let mut i: usize = 0;
        while i < self.entries.len()
            invariant
                self.wf(),
                i <= self.entries@.len(),
                res@.len() == i,
                forall|j: int| 0 <= j < i ==> (#[trigger] res@[j])@ == self.entries@[j].0@,
            decreases self.entries@.len() - i,
        {
            res.push(self.entries[i].0.clone());
            i += 1;
        }
        proof {
            assert forall|j: int| 0 <= j < res@.len() implies self@.contains_key(
                (#[trigger] res@[j])@,
            ) by {
                lemma_at(self.entries@, j);
            }
            assert forall|name: Seq<char>| #[trigger] self@.contains_key(name) implies exists|j: int|
                0 <= j < res@.len() && (#[trigger] res@[j])@ == name by {
                let j = choose|j: int| is_at(self.entries@, name, j);
                assert(res@[j]@ == name);
            }
        }
        res
    }
}

} // verus!
