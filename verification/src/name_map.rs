//! A map from names to values, seen as a `Map<Seq<char>, T::V>`: inserting a
//! name that is already present replaces its value.
//!
//! The map keeps every insertion in a vector, in order; its view is the
//! map that replaying them builds, later insertions replacing earlier ones.
//! A lookup searches from the latest insertion back.
use vstd::prelude::*;

verus! {

/// The map that a list of insertions builds, later ones replacing earlier ones.
pub open spec fn entries_map<T: View>(s: Seq<(String, T)>) -> Map<Seq<char>, T::V>
    decreases s.len(),
{
    if s.len() == 0 {
        Map::empty()
    } else {
        entries_map(s.drop_last()).insert(s.last().0@, s.last().1@)
    }
}

/// The lookup of `k` in the map built by `s` is decided by the last
/// insertion of `k`.
pub proof fn lemma_entries_map_lookup<T: View>(s: Seq<(String, T)>, k: Seq<char>, j: int)
    requires
        -1 <= j < s.len(),
        j >= 0 ==> s[j].0@ == k,
        forall|i: int| j < i < s.len() ==> s[i].0@ != k,
    ensures
        j < 0 ==> !entries_map(s).contains_key(k),
        j >= 0 ==> entries_map(s).contains_key(k) && entries_map(s)[k] == s[j].1@,
    decreases s.len(),
{
    if s.len() > 0 {
        let t = s.drop_last();
        if j == s.len() - 1 {
        } else {
            assert(s.last().0@ != k);
            lemma_entries_map_lookup(t, k, j);
        }
    }
}

/// Values stored under names.
#[derive(Debug, Clone)]
pub struct NameMap<T> {
    entries: Vec<(String, T)>,
}

impl<T: View> View for NameMap<T> {
    type V = Map<Seq<char>, T::V>;

    closed spec fn view(&self) -> Map<Seq<char>, T::V> {
        entries_map(self.entries@)
    }
}

impl<T: View> NameMap<T> {
    /// An empty map.
    pub fn new() -> (m: Self)
        ensures
            m@ == Map::<Seq<char>, T::V>::empty(),
    {
        NameMap { entries: Vec::new() }
    }

    /// Stores `value` under `key`, replacing what was stored there.
    pub fn insert(&mut self, key: String, value: T)
        ensures
            final(self)@ == old(self)@.insert(key@, value@),
    {
        let ghost before = self.entries@;
        self.entries.push((key, value));
        assert(self.entries@.drop_last() =~= before);
    }

    /// The value stored under `key`.
    pub fn get(&self, key: &str) -> (res: Option<&T>)
        ensures
            res is Some <==> self@.contains_key(key@),
            res matches Some(v) ==> v@ == self@[key@],
    {
        let k = key.to_owned();
        let mut i: usize = self.entries.len();
        while i > 0
            invariant
                i <= self.entries@.len(),
                k@ == key@,
                forall|m: int| i <= m < self.entries@.len() ==> self.entries@[m].0@ != key@,
            decreases i,
        {
            if self.entries[i - 1].0 == k {
                proof {
                    lemma_entries_map_lookup(self.entries@, key@, i - 1);
                }
                return Some(&self.entries[i - 1].1);
            }
            i = i - 1;
        }
        proof {
            lemma_entries_map_lookup(self.entries@, key@, -1);
        }
        None
    }

    /// The insertions made, in order; replaying them builds this map.
    pub fn entries(&self) -> (res: &Vec<(String, T)>)
        ensures
            entries_map(res@) == self@,
    {
        &self.entries
    }
}

} // verus!
