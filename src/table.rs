//! A small string-to-string table: an association list in which a later
//! insertion under a key replaces the earlier one.

use vstd::prelude::*;

verus! {

pub type Entries = Seq<(Seq<char>, Seq<char>)>;

/// `t` without the entries under key `k`.
pub open spec fn without(t: Entries, k: Seq<char>) -> Entries
    decreases t.len(),
{
    if t.len() == 0 {
        t
    } else if t.last().0 == k {
        without(t.drop_last(), k)
    } else {
        without(t.drop_last(), k).push(t.last())
    }
}

/// `t` after storing `v` under `k`.
pub open spec fn put(t: Entries, k: Seq<char>, v: Seq<char>) -> Entries {
    without(t, k).push((k, v))
}

/// `t` after storing each pair of `ps`, in order.
pub open spec fn put_all(t: Entries, ps: Entries) -> Entries
    decreases ps.len(),
{
    if ps.len() == 0 {
        t
    } else {
        put(put_all(t, ps.drop_last()), ps.last().0, ps.last().1)
    }
}

/// The value stored last under `k`.
pub open spec fn lookup(t: Entries, k: Seq<char>) -> Option<Seq<char>>
    decreases t.len(),
{
    if t.len() == 0 {
        None
    } else if t.last().0 == k {
        Some(t.last().1)
    } else {
        lookup(t.drop_last(), k)
    }
}

pub proof fn lemma_without_keeps(t: Entries, k: Seq<char>, j: Seq<char>)
    ensures
        j != k ==> lookup(without(t, k), j) == lookup(t, j),
        lookup(without(t, k), k) is None,
        forall|i: int| 0 <= i < without(t, k).len() ==> without(t, k)[i].0 != k,
    decreases t.len(),
{
    if t.len() > 0 {
        lemma_without_keeps(t.drop_last(), k, j);
        let w = without(t.drop_last(), k);
        assert(w.push(t.last()).drop_last() == w);
    }
}

pub proof fn lemma_put_lookup(t: Entries, k: Seq<char>, v: Seq<char>, j: Seq<char>)
    ensures
        lookup(put(t, k, v), j) == if j == k { Some(v) } else { lookup(t, j) },
{
    lemma_without_keeps(t, k, j);
    assert(put(t, k, v).drop_last() == without(t, k));
}

/// An association list of strings; a later insertion under a key replaces the
/// earlier one.
#[derive(Debug)]
pub struct Table {
    entries: Vec<(String, String)>,
}

impl View for Table {
    type V = Entries;

    closed spec fn view(&self) -> Entries {
        self.entries@.map_values(|e: (String, String)| (e.0@, e.1@))
    }
}

impl Table {
    pub fn new() -> (r: Table)
        ensures
            r@ == Seq::<(Seq<char>, Seq<char>)>::empty(),
    {
        Table { entries: Vec::new() }
    }

    /// Stores `value` under `key`, replacing what was stored there.
    pub fn insert(&mut self, key: String, value: String)
        ensures
            final(self)@ == put(old(self)@, key@, value@),
    {
        let ghost t = self@;
        let mut kept: Vec<(String, String)> = Vec::new();
        let mut i: usize = 0;
        while i < self.entries.len()
            invariant
                i <= self.entries@.len(),
                t == self@,
                kept@.map_values(|e: (String, String)| (e.0@, e.1@)) == without(
                    t.subrange(0, i as int),
                    key@,
                ),
            decreases self.entries@.len() - i,
        {
            assert(t.subrange(0, i + 1).drop_last() == t.subrange(0, i as int));
            if !(self.entries[i].0 == key) {
                let k0 = self.entries[i].0.clone();
                let v0 = self.entries[i].1.clone();
                kept.push((k0, v0));
            }
            assert(kept@.map_values(|e: (String, String)| (e.0@, e.1@)) =~= without(
                t.subrange(0, i + 1),
                key@,
            ));
            i = i + 1;
        }
        assert(t.subrange(0, t.len() as int) == t);
        kept.push((key, value));
        self.entries = kept;
        assert(self@ =~= put(t, key@, value@));
    }

    /// The value stored under `key`.
    pub fn get(&self, key: &str) -> (r: Option<&String>)
        ensures
            r matches Some(v) ==> lookup(self@, key@) == Some(v@),
            r is None ==> lookup(self@, key@) is None,
    {
        let k = key.to_owned();
        let mut n: usize = self.entries.len();
        assert(self@.subrange(0, self@.len() as int) == self@);
        while n > 0
            invariant
                n <= self.entries@.len(),
                k@ == key@,
                lookup(self@, key@) == lookup(self@.subrange(0, n as int), key@),
            decreases n,
        {
            assert(self@.subrange(0, n - 1) == self@.subrange(0, n as int).drop_last());
            if self.entries[n - 1].0 == k {
                return Some(&self.entries[n - 1].1);
            }
            n = n - 1;
        }
        None
    }

    pub fn len(&self) -> (r: usize)
        ensures
            r == self@.len(),
    {
        self.entries.len()
    }

    /// The entries, in the order in which their keys were last stored.
    pub fn entries(&self) -> (r: &Vec<(String, String)>)
        ensures
            r@.map_values(|e: (String, String)| (e.0@, e.1@)) == self@,
    {
        &self.entries
    }
}


pub proof fn lemma_put_all_concat(t: Entries, a: Entries, b: Entries)
    ensures
        put_all(t, a + b) == put_all(put_all(t, a), b),
    decreases b.len(),
{
    if b.len() == 0 {
        assert(a + b =~= a);
    } else {
        assert((a + b).drop_last() =~= a + b.drop_last());
        assert((a + b).last() == b.last());
        lemma_put_all_concat(t, a, b.drop_last());
    }
}

} // verus!
