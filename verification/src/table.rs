//! A small table from names (UTF-8 bytes) to values, where a later entry
//! for a name replaces an earlier one.
use vstd::prelude::*;

verus! {

/// Looks a name up among entries, the last entry for it winning.
pub open spec fn entry_lookup<V>(e: Seq<(Vec<u8>, V)>, k: Seq<u8>) -> Option<V>
    decreases e.len(),
{
    if e.len() == 0 {
        None
    } else if e.last().0@ == k {
        Some(e.last().1)
    } else {
        entry_lookup(e.drop_last(), k)
    }
}

/// Names and their values.
pub struct Table<V> {
    pub entries: Vec<(Vec<u8>, V)>,
}

impl<V> Table<V> {
    /// The value of a name, if it has one.
    pub open spec fn lookup(&self, k: Seq<u8>) -> Option<V> {
        entry_lookup(self.entries@, k)
    }

    /// A table where no name has a value.
    pub fn new() -> (r: Self)
        ensures
            forall|k: Seq<u8>| r.lookup(k) is None,
    {
        Table { entries: Vec::new() }
    }

    /// The position of the entry that holds the value of `k`, if any.
    pub fn find(&self, k: &[u8]) -> (r: Option<usize>)
        ensures
            r matches Some(i) ==> i < self.entries@.len() && self.entries@[i as int].0@ == k@
                && self.lookup(k@) == Some(self.entries@[i as int].1) && forall|j: int|
                i < j < self.entries@.len() ==> self.entries@[j].0@ != k@,
            r is None ==> self.lookup(k@) is None,
    {
        let mut i = self.entries.len();
        let ghost e = self.entries@;
        assert(e.take(e.len() as int) =~= e);
        while i > 0
            invariant
                i <= e.len(),
                e == self.entries@,
                self.lookup(k@) == entry_lookup(e.take(i as int), k@),
                forall|j: int| i <= j < e.len() ==> e[j].0@ != k@,
            decreases i,
        {
            let key = self.entries[i - 1].0.as_slice();
            assert(e.take(i as int).last() == e[i - 1]);
            assert(e.take(i as int).drop_last() =~= e.take(i - 1));
            if crate::encoding::bytes_eq(key, k) {
                return Some(i - 1);
            }
            i = i - 1;
        }
        None
    }

    /// Gives `k` the value `v`.
    pub fn set(&mut self, k: Vec<u8>, v: V)
        ensures
            forall|q: Seq<u8>|
                #[trigger] final(self).lookup(q) == if q == k@ {
                    Some(v)
                } else {
                    old(self).lookup(q)
                },
    {
        match self.find(k.as_slice()) {
            Some(i) => {
                let ghost e = self.entries@;
                let ghost kv = (k, v);
                self.entries.set(i, (k, v));
                assert forall|q: Seq<u8>|
                    #[trigger] entry_lookup(self.entries@, q) == if q == kv.0@ {
                        Some(kv.1)
                    } else {
                        entry_lookup(e, q)
                    } by {
                    lemma_lookup_update(e, i as int, kv, q);
                }
            },
            None => {
                let ghost e = self.entries@;
                self.entries.push((k, v));
                assert(self.entries@.drop_last() =~= e);
            },
        }
    }
}

proof fn lemma_lookup_update<V>(e: Seq<(Vec<u8>, V)>, i: int, kv: (Vec<u8>, V), q: Seq<u8>)
    requires
        0 <= i < e.len(),
        e[i].0@ == kv.0@,
        forall|j: int| i < j < e.len() ==> e[j].0@ != kv.0@,
    ensures
        entry_lookup(e.update(i, kv), q) == if q == kv.0@ {
            Some(kv.1)
        } else {
            entry_lookup(e, q)
        },
    decreases e.len(),
{
    let u = e.update(i, kv);
    if i == e.len() - 1 {
        assert(u.drop_last() =~= e.drop_last());
    } else {
        assert(u.last() == e.last());
        assert(u.drop_last() =~= e.drop_last().update(i, kv));
        assert forall|j: int| i < j < e.drop_last().len() implies e.drop_last()[j].0@ != kv.0@ by {
            assert(e.drop_last()[j] == e[j]);
        }
        lemma_lookup_update(e.drop_last(), i, kv, q);
    }
}

} // verus!
