use vstd::prelude::*;
use crate::config::names::str_eq;

verus! {

/// The map that a list of (name, value) pairs stands for: a later pair for
/// a name replaces an earlier one.
pub open spec fn entries_map(s: Seq<(String, String)>) -> Map<Seq<char>, Seq<char>>
    decreases s.len(),
{
    if s.len() == 0 {
        Map::empty()
    } else {
        entries_map(s.drop_last()).insert(s.last().0@, s.last().1@)
    }
}

/// String metadata of an element: a map from names to values, held as a
/// list of (name, value) pairs. `insert` replaces the pair already stored
/// under a name; the map the list stands for is its view.
#[derive(Debug)]
pub struct MetaTable {
    entries: Vec<(String, String)>,
}

impl View for MetaTable {
    type V = Map<Seq<char>, Seq<char>>;

    closed spec fn view(&self) -> Map<Seq<char>, Seq<char>> {
        entries_map(self.entries@)
    }
}

/// Pairs at and after `j` do not mention `k`, so the map of the whole list
/// agrees with that of its first `j` pairs on `k`.
proof fn lemma_tail_without_key(s: Seq<(String, String)>, j: int, k: Seq<char>)
    requires
        0 <= j <= s.len(),
        forall|i: int| j <= i < s.len() ==> s[i].0@ != k,
    ensures
        entries_map(s).contains_key(k) == entries_map(s.take(j)).contains_key(k),
        entries_map(s).contains_key(k) ==> entries_map(s)[k] == entries_map(s.take(j))[k],
    decreases s.len() - j,
{
    if j < s.len() {
        assert(s.drop_last().take(j) =~= s.take(j));
        lemma_tail_without_key(s.drop_last(), j, k);
    } else {
        assert(s.take(j) =~= s);
    }
}

/// Replacing the last pair that names `k` amounts to inserting into the map.
proof fn lemma_update_last(s: Seq<(String, String)>, j: int, p: (String, String))
    requires
        0 <= j < s.len(),
        s[j].0@ == p.0@,
        forall|i: int| j < i < s.len() ==> s[i].0@ != p.0@,
    ensures
        entries_map(s.update(j, p)) =~= entries_map(s).insert(p.0@, p.1@),
    decreases s.len(),
{
    let t = s.update(j, p);
    if j == s.len() - 1 {
        assert(t.drop_last() =~= s.drop_last());
    } else {
        assert(t.drop_last() =~= s.drop_last().update(j, p));
        lemma_update_last(s.drop_last(), j, p);
    }
}

impl MetaTable {
    /// An empty table.
    pub fn new() -> (r: Self)
        ensures
            r@ == Map::<Seq<char>, Seq<char>>::empty(),
    {
        MetaTable { entries: Vec::new() }
    }

    /// Index of the last pair that names `name`, if any.
    fn find(&self, name: &str) -> (r: Option<usize>)
        ensures
            match r {
                Some(j) => {
                    &&& j < self.entries@.len()
                    &&& self.entries@[j as int].0@ == name@
                    &&& forall|i: int| j < i < self.entries@.len() ==> self.entries@[i].0@ != name@
                },
                None => forall|i: int| 0 <= i < self.entries@.len() ==> self.entries@[i].0@ != name@,
            },
    {
        let mut j = self.entries.len();
        while j > 0
            invariant
                j <= self.entries@.len(),
                forall|i: int| j <= i < self.entries@.len() ==> self.entries@[i].0@ != name@,
            decreases j,
        {
            if str_eq(self.entries[j - 1].0.as_str(), name) {
                return Some(j - 1);
            }
            j = j - 1;
        }
        None
    }

    /// The value stored under `name`.
    pub fn get(&self, name: &str) -> (r: Option<&String>)
        ensures
            match r {
                Some(v) => self@.contains_key(name@) && v@ == self@[name@],
                None => !self@.contains_key(name@),
            },
    {
        let ghost s = self.entries@;
        match self.find(name) {
            Some(j) => {
                proof {
                    lemma_tail_without_key(s, j + 1, name@);
                    assert(s.take(j + 1).drop_last() =~= s.take(j as int));
                }
                Some(&self.entries[j].1)
            },
            None => {
                proof {
                    lemma_tail_without_key(s, 0, name@);
                    assert(s.take(0) =~= Seq::<(String, String)>::empty());
                }
                None
            },
        }
    }

    /// Whether a value is stored under `name`.
    pub fn contains(&self, name: &str) -> (r: bool)
        ensures
            r == self@.contains_key(name@),
    {
        match self.get(name) {
            Some(_) => true,
            None => false,
        }
    }

    /// Stores `value` under `name`, replacing what was there.
    pub fn insert(&mut self, name: &str, value: &str)
        ensures
            final(self)@ == old(self)@.insert(name@, value@),
    {
        let p = (name.to_owned(), value.to_owned());
        match self.find(name) {
            Some(j) => {
                proof {
                    lemma_update_last(self.entries@, j as int, p);
                }
                self.entries.set(j, p);
            },
            None => {
                let ghost s = self.entries@;
                self.entries.push(p);
                proof {
                    assert(self.entries@.drop_last() =~= s);
                }
            },
        }
    }
}

} // verus!
