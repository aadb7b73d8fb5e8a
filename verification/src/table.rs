use vstd::prelude::*;
use crate::text::str_eq;

verus! {

/// A table from names to values, where each name occurs once; inserting a
/// name that is already there replaces its value.
#[derive(Debug)]
pub struct StrMap<V> {
    entries: Vec<(&'static str, V)>,
}

/// The map that a list of entries describes when each later entry may
/// override an earlier one with the same name.
pub open spec fn map_of<V>(entries: Seq<(&'static str, V)>) -> Map<Seq<char>, V>
    decreases entries.len(),
{
    if entries.len() == 0 {
        Map::empty()
    } else {
        map_of(entries.drop_last()).insert(entries.last().0@, entries.last().1)
    }
}

pub open spec fn names_unique<V>(entries: Seq<(&'static str, V)>) -> bool {
    forall|i: int, j: int|
        0 <= i < entries.len() && 0 <= j < entries.len() && i != j ==> #[trigger] entries[i].0@
            != #[trigger] entries[j].0@
}

proof fn lemma_map_of_dom<V>(entries: Seq<(&'static str, V)>, k: Seq<char>)
    ensures
        map_of(entries).dom().contains(k) <==> exists|i: int|
            0 <= i < entries.len() && #[trigger] entries[i].0@ == k,
    decreases entries.len(),
{
    if entries.len() > 0 {
        let init = entries.drop_last();
        lemma_map_of_dom(init, k);
        if map_of(entries).dom().contains(k) {
            if k != entries.last().0@ {
                let i = choose|i: int| 0 <= i < init.len() && #[trigger] init[i].0@ == k;
                assert(entries[i].0@ == k);
            } else {
                assert(entries[entries.len() - 1].0@ == k);
            }
        }
        if exists|i: int| 0 <= i < entries.len() && #[trigger] entries[i].0@ == k {
            let i = choose|i: int| 0 <= i < entries.len() && #[trigger] entries[i].0@ == k;
            if i < entries.len() - 1 {
                assert(init[i].0@ == k);
            }
        }
    }
}

proof fn lemma_map_of_value<V>(entries: Seq<(&'static str, V)>, i: int)
    requires
        names_unique(entries),
        0 <= i < entries.len(),
    ensures
        map_of(entries).dom().contains(entries[i].0@),
        map_of(entries)[entries[i].0@] == entries[i].1,
    decreases entries.len(),
{
    let init = entries.drop_last();
    if i < entries.len() - 1 {
        assert(init[i] == entries[i]);
        assert(names_unique(init)) by {
            assert forall|a: int, b: int|
                0 <= a < init.len() && 0 <= b < init.len() && a != b implies #[trigger] init[a].0@
                != #[trigger] init[b].0@ by {
                assert(init[a] == entries[a]);
                assert(init[b] == entries[b]);
            }
        }
        lemma_map_of_value(init, i);
        assert(entries[i].0@ != entries[entries.len() - 1].0@);
    }
}

proof fn lemma_map_of_len<V>(entries: Seq<(&'static str, V)>)
    requires
        names_unique(entries),
    ensures
        map_of(entries).dom().finite(),
        map_of(entries).dom().len() == entries.len(),
    decreases entries.len(),
{
    if entries.len() > 0 {
        let init = entries.drop_last();
        assert(names_unique(init)) by {
            assert forall|a: int, b: int|
                0 <= a < init.len() && 0 <= b < init.len() && a != b implies #[trigger] init[a].0@
                != #[trigger] init[b].0@ by {
                assert(init[a] == entries[a]);
                assert(init[b] == entries[b]);
            }
        }
        lemma_map_of_len(init);
        lemma_map_of_dom(init, entries.last().0@);
        if map_of(init).dom().contains(entries.last().0@) {
            let i = choose|i: int| 0 <= i < init.len() && #[trigger] init[i].0@ == entries.last().0@;
            assert(entries[i].0@ == entries[entries.len() - 1].0@);
        }
    }
}

proof fn lemma_map_of_update<V>(entries: Seq<(&'static str, V)>, i: int, key: &'static str, value: V)
    requires
        names_unique(entries),
        0 <= i < entries.len(),
        entries[i].0@ == key@,
    ensures
        names_unique(entries.update(i, (key, value))),
        map_of(entries.update(i, (key, value))) == map_of(entries).insert(key@, value),
{
    let u = entries.update(i, (key, value));
    assert forall|a: int, b: int|
        0 <= a < u.len() && 0 <= b < u.len() && a != b implies #[trigger] u[a].0@ != #[trigger] u[b].0@ by {
        assert(u[a].0@ == entries[a].0@);
        assert(u[b].0@ == entries[b].0@);
    }
    assert forall|k: Seq<char>| #[trigger] map_of(u).dom().contains(k) <==> map_of(entries).insert(key@, value).dom().contains(k) by {
        lemma_map_of_dom(u, k);
        lemma_map_of_dom(entries, k);
        if exists|j: int| 0 <= j < entries.len() && #[trigger] entries[j].0@ == k {
            let j = choose|j: int| 0 <= j < entries.len() && #[trigger] entries[j].0@ == k;
            assert(u[j].0@ == k);
        }
        if exists|j: int| 0 <= j < u.len() && #[trigger] u[j].0@ == k {
            let j = choose|j: int| 0 <= j < u.len() && #[trigger] u[j].0@ == k;
            assert(entries[j].0@ == k);
        }
        if k == key@ {
            assert(entries[i].0@ == k);
        }
    }
    assert forall|k: Seq<char>| #[trigger] map_of(u).dom().contains(k) implies map_of(u)[k] == map_of(entries).insert(key@, value)[k] by {
        lemma_map_of_dom(u, k);
        let j = choose|j: int| 0 <= j < u.len() && #[trigger] u[j].0@ == k;
        lemma_map_of_value(u, j);
        if j != i {
            assert(u[j] == entries[j]);
            lemma_map_of_value(entries, j);
        }
    }
    assert(map_of(u) =~= map_of(entries).insert(key@, value));
}

impl<V> View for StrMap<V> {
    type V = Map<Seq<char>, V>;

    closed spec fn view(&self) -> Map<Seq<char>, V> {
        map_of(self.entries@)
    }
}

impl<V> StrMap<V> {
    #[verifier::type_invariant]
    closed spec fn wf(self) -> bool {
        names_unique(self.entries@)
    }

    /// An empty table.
    pub fn new() -> (m: Self)
        ensures
            m@ == Map::<Seq<char>, V>::empty(),
    {
        StrMap { entries: Vec::new() }
    }

    /// The position of the entry for `key`, if there is one.
    fn find(&self, key: &str) -> (r: Option<usize>)
        ensures
            match r {
                Some(i) => i < self.entries@.len() && self.entries@[i as int].0@ == key@,
                None => forall|i: int| 0 <= i < self.entries@.len() ==> #[trigger] self.entries@[i].0@ != key@,
            },
    {
        let mut i: usize = 0;
        while i < self.entries.len()
            invariant
                i <= self.entries@.len(),
                forall|j: int| 0 <= j < i ==> #[trigger] self.entries@[j].0@ != key@,
            decreases self.entries@.len() - i,
        {
            if str_eq(self.entries[i].0, key) {
                return Some(i);
            }
            i = i + 1;
        }
        None
    }

    /// The number of names in the table.
    pub fn len(&self) -> (n: usize)
        ensures
            self@.dom().finite(),
            n == self@.dom().len(),
    {
        proof {
            use_type_invariant(self);
            lemma_map_of_len(self.entries@);
        }
        self.entries.len()
    }

    /// Whether `key` has an entry.
    pub fn contains_key(&self, key: &str) -> (b: bool)
        ensures
            b == self@.contains_key(key@),
    {
        proof {
            lemma_map_of_dom(self.entries@, key@);
        }
        self.find(key).is_some()
    }

    /// The value stored under `key`, if there is one.
    pub fn get(&self, key: &str) -> (r: Option<&V>)
        ensures
            match r {
                Some(v) => self@.contains_key(key@) && *v == self@[key@],
                None => !self@.contains_key(key@),
            },
    {
        proof {
            use_type_invariant(self);
            lemma_map_of_dom(self.entries@, key@);
        }
        match self.find(key) {
            Some(i) => {
                proof {
                    lemma_map_of_value(self.entries@, i as int);
                }
                Some(&self.entries[i].1)
            },
            None => None,
        }
    }

    /// Stores `value` under `key`, replacing what was stored there before.
    pub fn insert(&mut self, key: &'static str, value: V)
        ensures
            final(self)@ == old(self)@.insert(key@, value),
    {
        proof {
            use_type_invariant(&*self);
        }
        let found = self.find(key);
        let mut entries: Vec<(&'static str, V)> = Vec::new();
        std::mem::swap(&mut entries, &mut self.entries);
        let ghost old_entries = entries@;
        match found {
            Some(i) => {
                proof {
                    lemma_map_of_update(old_entries, i as int, key, value);
                }
                entries.set(i, (key, value));
            },
            None => {
                proof {
                    lemma_map_of_dom(old_entries, key@);
                }
                entries.push((key, value));
                proof {
                    assert(entries@.drop_last() =~= old_entries);
                    assert forall|a: int, b: int|
                        0 <= a < entries@.len() && 0 <= b < entries@.len() && a != b
                        implies #[trigger] entries@[a].0@ != #[trigger] entries@[b].0@ by {
                        if a < old_entries.len() {
                            assert(entries@[a] == old_entries[a]);
                        }
                        if b < old_entries.len() {
                            assert(entries@[b] == old_entries[b]);
                        }
                    }
                }
            },
        }
        self.entries = entries;
    }
}

} // verus!
