//! The mapping store's lookup structure: a string-to-string table whose
//! view is a mathematical map.
//!
//! Entries are kept in insertion order and a later entry for the same key
//! wins, so inserting is simply appending and the construction of derived
//! tables (such as the case-insensitive shadow index) is deterministic in
//! the order the entries were added.

use vstd::prelude::*;

verus! {

/// The map described by an ordered sequence of key/value pairs, a later
/// pair overriding an earlier one with the same key.
pub open spec fn table_map(ps: Seq<(Seq<char>, Seq<char>)>) -> Map<Seq<char>, Seq<char>>
    decreases ps.len(),
{
    if ps.len() == 0 {
        Map::empty()
    } else {
        table_map(ps.drop_last()).insert(ps.last().0, ps.last().1)
    }
}

/// A synonym-to-canonical table, looked up by exact key.
#[derive(Debug)]
pub struct LookupTable {
    entries: Vec<(String, String)>,
}

impl View for LookupTable {
    type V = Map<Seq<char>, Seq<char>>;

    open spec fn view(&self) -> Map<Seq<char>, Seq<char>> {
        table_map(self.pairs())
    }
}

proof fn lemma_table_map_found(ps: Seq<(Seq<char>, Seq<char>)>, k: Seq<char>, j: int)
    requires
        0 <= j < ps.len(),
        ps[j].0 == k,
        forall|l: int| j < l < ps.len() ==> ps[l].0 != k,
    ensures
        table_map(ps).contains_key(k),
        table_map(ps)[k] == ps[j].1,
    decreases ps.len(),
{
    if j == ps.len() - 1 {
    } else {
        assert(ps.last().0 != k);
        assert(ps.drop_last()[j] == ps[j]);
        lemma_table_map_found(ps.drop_last(), k, j);
    }
}

proof fn lemma_table_map_absent(ps: Seq<(Seq<char>, Seq<char>)>, k: Seq<char>)
    requires
        forall|j: int| 0 <= j < ps.len() ==> ps[j].0 != k,
    ensures
        !table_map(ps).contains_key(k),
    decreases ps.len(),
{
    if ps.len() > 0 {
        assert(ps.last().0 != k);
        lemma_table_map_absent(ps.drop_last(), k);
    }
}

impl LookupTable {
    /// The table's entries, in insertion order, as key/value views.
    pub closed spec fn pairs(self) -> Seq<(Seq<char>, Seq<char>)> {
        self.entries@.map_values(|e: (String, String)| (e.0@, e.1@))
    }

    /// An empty table.
    pub fn new() -> (t: LookupTable)
        ensures
            t.pairs() == Seq::<(Seq<char>, Seq<char>)>::empty(),
            t@ == Map::<Seq<char>, Seq<char>>::empty(),
    {
        let t = LookupTable { entries: Vec::new() };
        proof {
            assert(t.pairs() =~= Seq::<(Seq<char>, Seq<char>)>::empty());
        }
        t
    }

    /// Adds a pair; it overrides any earlier entry with the same key.
    pub fn insert(&mut self, k: String, v: String)
        ensures
            final(self).pairs() == old(self).pairs().push((k@, v@)),
            final(self)@ == old(self)@.insert(k@, v@),
    {
        let ghost ks = k@;
        let ghost vs = v@;
        self.entries.push((k, v));
        proof {
            assert(self.pairs() =~= old(self).pairs().push((ks, vs)));
            assert(self.pairs().drop_last() =~= old(self).pairs());
        }
    }

    /// How many entries the table holds (later duplicates included).
    pub fn entry_count(&self) -> (n: usize)
        ensures
            n == self.pairs().len(),
    {
        self.entries.len()
    }

    /// The entry at a position, in insertion order.
    pub fn entry_at(&self, i: usize) -> (kv: (String, String))
        requires
            i < self.pairs().len(),
        ensures
            kv.0@ == self.pairs()[i as int].0,
            kv.1@ == self.pairs()[i as int].1,
    {
        let e = &self.entries[i];
        (e.0.clone(), e.1.clone())
    }

    /// Looks a key up, exactly; the latest entry for it decides.
    pub fn get(&self, k: &String) -> (r: Option<String>)
        ensures
            match r {
                Some(v) => self@.contains_key(k@) && v@ == self@[k@],
                None => !self@.contains_key(k@),
            },
    {
        let mut i: usize = self.entries.len();
        while i > 0
            invariant
                i <= self.entries.len(),
                forall|j: int| i <= j < self.pairs().len() ==> self.pairs()[j].0 != k@,
            decreases i,
        {
            i = i - 1;
            if self.entries[i].0 == *k {
                proof {
                    lemma_table_map_found(self.pairs(), k@, i as int);
                }
                return Some(self.entries[i].1.clone());
            }
        }
        proof {
            lemma_table_map_absent(self.pairs(), k@);
        }
        None
    }
}

} // verus!
