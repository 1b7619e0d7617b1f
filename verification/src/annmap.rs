//! String-keyed annotation maps, stored as association lists.
//!
//! The alignment model keeps three kinds of metadata (per-record
//! annotations, whole-alignment annotations and per-column annotations) as
//! maps from names to string values. They are stored as lists of pairs; the
//! view of such a list is the mathematical map in which the earliest entry
//! for a key wins.

use vstd::prelude::*;

verus! {

/// The mathematical contents of an association list: the map that sends each
/// key occurring in `entries` to the value of its earliest entry.
pub open spec fn map_of(entries: Seq<(String, String)>) -> Map<Seq<char>, Seq<char>>
    decreases entries.len(),
{
    if entries.len() == 0 {
        Map::empty()
    } else {
        map_of(entries.drop_first()).insert(entries[0].0@, entries[0].1@)
    }
}

/// A key occurs in the map exactly when some entry carries it.
proof fn lemma_map_of_contains(entries: Seq<(String, String)>, k: Seq<char>)
    ensures
        map_of(entries).contains_key(k) <==> exists|i: int|
            0 <= i < entries.len() && entries[i].0@ == k,
    decreases entries.len(),
{
    if entries.len() > 0 {
        lemma_map_of_contains(entries.drop_first(), k);
        if entries[0].0@ != k && map_of(entries).contains_key(k) {
            let i = choose|i: int|
                0 <= i < entries.drop_first().len() && entries.drop_first()[i].0@ == k;
            assert(entries[i + 1].0@ == k);
        }
        if exists|i: int| 0 <= i < entries.len() && entries[i].0@ == k {
            let i = choose|i: int| 0 <= i < entries.len() && entries[i].0@ == k;
            if i > 0 {
                assert(entries.drop_first()[i - 1].0@ == k);
            }
        }
    }
}

/// The value of a key is the value of its earliest entry.
proof fn lemma_map_of_first(entries: Seq<(String, String)>, i: int)
    requires
        0 <= i < entries.len(),
        forall|j: int| 0 <= j < i ==> entries[j].0@ != entries[i].0@,
    ensures
        map_of(entries).contains_key(entries[i].0@),
        map_of(entries)[entries[i].0@] == entries[i].1@,
    decreases entries.len(),
{
    if i > 0 {
        assert(entries.drop_first()[i - 1] == entries[i]);
        assert(forall|j: int|
            0 <= j < i - 1 ==> (#[trigger] entries.drop_first()[j]).0@
                != entries.drop_first()[i - 1].0@);
        lemma_map_of_first(entries.drop_first(), i - 1);
    }
}

/// Replacing the earliest entry for a key updates the map at that key.
proof fn lemma_map_of_update_first(entries: Seq<(String, String)>, i: int, p: (String, String))
    requires
        0 <= i < entries.len(),
        forall|j: int| 0 <= j < i ==> entries[j].0@ != entries[i].0@,
        p.0@ == entries[i].0@,
    ensures
        map_of(entries.update(i, p)) == map_of(entries).insert(p.0@, p.1@),
    decreases entries.len(),
{
    let u = entries.update(i, p);
    if i == 0 {
        assert(u.drop_first() =~= entries.drop_first());
        assert(map_of(u) =~= map_of(entries).insert(p.0@, p.1@));
    } else {
        assert(u.drop_first() =~= entries.drop_first().update(i - 1, p));
        assert(entries.drop_first()[i - 1] == entries[i]);
        assert(forall|j: int|
            0 <= j < i - 1 ==> (#[trigger] entries.drop_first()[j]).0@
                != entries.drop_first()[i - 1].0@);
        lemma_map_of_update_first(entries.drop_first(), i - 1, p);
        assert(u[0] == entries[0]);
        assert(entries[0].0@ != p.0@);
        assert(map_of(u) =~= map_of(entries).insert(p.0@, p.1@));
    }
}

/// A string-keyed map of string values. The alignment model uses it for
/// whole-alignment, per-column and per-record annotations.
#[derive(Debug, Clone, PartialEq)]
pub struct AnnMap {
    entries: Vec<(String, String)>,
}

impl View for AnnMap {
    type V = Map<Seq<char>, Seq<char>>;

    closed spec fn view(&self) -> Map<Seq<char>, Seq<char>> {
        map_of(self.entries@)
    }
}

impl AnnMap {
    /// Creates an empty map.
    pub fn new() -> (r: AnnMap)
        ensures
            r@ == Map::<Seq<char>, Seq<char>>::empty(),
    {
        AnnMap { entries: Vec::new() }
    }

    /// Looks a name up, returning the value bound to it, if any.
    pub fn get<'a>(&'a self, name: &str) -> (r: Option<&'a String>)
        ensures
            match r {
                Some(v) => self@.contains_key(name@) && v@ == self@[name@],
                None => !self@.contains_key(name@),
            },
    {
        let n = self.entries.len();
        let mut i: usize = 0;
        while i < n
            invariant
                i <= n,
                n == self.entries@.len(),
                forall|j: int| 0 <= j < i ==> self.entries@[j].0@ != name@,
            decreases n - i,
        {
            if crate::str_eq(self.entries[i].0.as_str(), name) {
                proof {
                    lemma_map_of_first(self.entries@, i as int);
                }
                return Some(&self.entries[i].1);
            }
            i += 1;
        }
        proof {
            lemma_map_of_contains(self.entries@, name@);
        }
        None
    }

    /// Binds a name to a value, replacing and returning any earlier value
    /// (last-write-wins upsert).
    pub fn set(&mut self, name: String, value: String) -> (r: Option<String>)
        ensures
            final(self)@ == old(self)@.insert(name@, value@),
            match r {
                Some(v) => old(self)@.contains_key(name@) && v@ == old(self)@[name@],
                None => !old(self)@.contains_key(name@),
            },
    {
        let n = self.entries.len();
        let mut i: usize = 0;
        while i < n
            invariant
                i <= n,
                n == self.entries@.len(),
                self.entries@ == old(self).entries@,
                forall|j: int| 0 <= j < i ==> self.entries@[j].0@ != name@,
            decreases n - i,
        {
            if crate::str_eq(self.entries[i].0.as_str(), name.as_str()) {
                proof {
                    lemma_map_of_first(self.entries@, i as int);
                    lemma_map_of_update_first(self.entries@, i as int, (name, value));
                }
                let prev = self.entries[i].1.clone();
                self.entries[i] = (name, value);
                return Some(prev);
            }
            i += 1;
        }
        proof {
            lemma_map_of_contains(self.entries@, name@);
        }
        self.entries.insert(0, (name, value));
        proof {
            assert(self.entries@.drop_first() =~= old(self).entries@);
        }
        None
    }

    /// Concatenates a fragment onto the value bound to a name, binding the
    /// name to the fragment alone where it was unbound.
    pub fn append(&mut self, name: &str, value: &str)
        ensures
            final(self)@ == old(self)@.insert(
                name@,
                if old(self)@.contains_key(name@) {
                    old(self)@[name@] + value@
                } else {
                    value@
                },
            ),
    {
        let n = self.entries.len();
        let mut i: usize = 0;
        while i < n
            invariant
                i <= n,
                n == self.entries@.len(),
                self.entries@ == old(self).entries@,
                forall|j: int| 0 <= j < i ==> self.entries@[j].0@ != name@,
            decreases n - i,
        {
            if crate::str_eq(self.entries[i].0.as_str(), name) {
                let key = self.entries[i].0.clone();
                let grown = self.entries[i].1.clone().concat(value);
                proof {
                    lemma_map_of_first(self.entries@, i as int);
                    lemma_map_of_update_first(self.entries@, i as int, (key, grown));
                }
                self.entries[i] = (key, grown);
                return ;
            }
            i += 1;
        }
        proof {
            lemma_map_of_contains(self.entries@, name@);
        }
        self.entries.insert(0, (name.to_owned(), value.to_owned()));
        proof {
            assert(self.entries@.drop_first() =~= old(self).entries@);
        }
    }

    /// Removes every binding.
    pub fn clear(&mut self)
        ensures
            final(self)@ == Map::<Seq<char>, Seq<char>>::empty(),
    {
        self.entries.clear();
    }
}

} // verus!
