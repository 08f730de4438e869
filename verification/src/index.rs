//! The in-memory index: a mapping from each key to the locator of its latest
//! `Set` record.
//!
//! Held as a vector of bindings with pairwise distinct keys, and specified
//! as a [`Map`] from key characters to locators.

use crate::file::CmdInfo;
use vstd::prelude::*;

verus! {

/// The key-to-locator mapping of the store.
pub struct Index {
    entries: Vec<(String, CmdInfo)>,
}

/// The map a sequence of bindings stands for, later bindings winning.
pub open spec fn entries_map(s: Seq<(String, CmdInfo)>) -> Map<Seq<char>, CmdInfo>
    decreases s.len(),
{
    if s.len() == 0 {
        Map::empty()
    } else {
        entries_map(s.drop_last()).insert(s.last().0@, s.last().1)
    }
}

/// The total byte length of the records a sequence of bindings points at.
pub open spec fn sum_lens(s: Seq<(String, CmdInfo)>) -> nat
    decreases s.len(),
{
    if s.len() == 0 {
        0
    } else {
        (sum_lens(s.drop_last()) + s.last().1.len) as nat
    }
}

/// True when no two bindings share a key.
pub open spec fn unique_keys(s: Seq<(String, CmdInfo)>) -> bool {
    forall|i: int, j: int| 0 <= i < j < s.len() ==> #[trigger] s[i].0@ != #[trigger] s[j].0@
}

/// A key is in the map exactly when some binding carries it.
pub proof fn lemma_entries_map_contains(s: Seq<(String, CmdInfo)>, k: Seq<char>)
    ensures
        entries_map(s).contains_key(k) <==> exists|i: int| 0 <= i < s.len() && #[trigger] s[i].0@
            == k,
    decreases s.len(),
{
    if s.len() > 0 {
        lemma_entries_map_contains(s.drop_last(), k);
        if s.last().0@ == k {
            assert(s[s.len() - 1].0@ == k);
        } else {
            if exists|i: int| 0 <= i < s.len() && #[trigger] s[i].0@ == k {
                let i = choose|i: int| 0 <= i < s.len() && #[trigger] s[i].0@ == k;
                assert(i < s.len() - 1);
                assert(s.drop_last()[i].0@ == k);
            }
            if exists|i: int| 0 <= i < s.drop_last().len() && #[trigger] s.drop_last()[i].0@
                == k {
                let i = choose|i: int|
                    0 <= i < s.drop_last().len() && #[trigger] s.drop_last()[i].0@ == k;
                assert(s[i].0@ == k);
            }
        }
    }
}

/// With distinct keys, the map's value at a binding's key is that binding's
/// locator.
pub proof fn lemma_entries_map_at(s: Seq<(String, CmdInfo)>, i: int)
    requires
        unique_keys(s),
        0 <= i < s.len(),
    ensures
        entries_map(s).contains_key(s[i].0@),
        entries_map(s)[s[i].0@] == s[i].1,
    decreases s.len(),
{
    lemma_entries_map_contains(s, s[i].0@);
    if i == s.len() - 1 {
    } else {
        assert(s.drop_last()[i] == s[i]);
        assert(unique_keys(s.drop_last())) by {
            assert(forall|a: int, b: int|
                0 <= a < b < s.drop_last().len() ==> s.drop_last()[a] == s[a] && s.drop_last()[b]
                    == s[b]);
        }
        lemma_entries_map_at(s.drop_last(), i);
        assert(s[i].0@ != s.last().0@);
    }
}

/// Replacing the locator of binding `i` updates the map at its key alone.
pub proof fn lemma_entries_map_update(s: Seq<(String, CmdInfo)>, i: int, e: (String, CmdInfo))
    requires
        unique_keys(s),
        0 <= i < s.len(),
        e.0@ == s[i].0@,
    ensures
        entries_map(s.update(i, e)) =~= entries_map(s).insert(e.0@, e.1),
        sum_lens(s.update(i, e)) == sum_lens(s) - s[i].1.len + e.1.len,
        unique_keys(s.update(i, e)),
    decreases s.len(),
{
    let t = s.update(i, e);
    assert(unique_keys(t)) by {
        assert(forall|a: int|
            0 <= a < t.len() ==> #[trigger] t[a].0@ == if a == i {
                e.0@
            } else {
                s[a].0@
            });
    }
    if i == s.len() - 1 {
        assert(t.drop_last() =~= s.drop_last());
        assert(t.last() == e);
        assert(entries_map(t) == entries_map(s.drop_last()).insert(e.0@, e.1));
        assert(entries_map(s) == entries_map(s.drop_last()).insert(s[i].0@, s[i].1));
        assert(entries_map(t) =~= entries_map(s).insert(e.0@, e.1));
        assert(sum_lens(t) == sum_lens(s.drop_last()) + e.1.len);
    } else {
        assert(t.drop_last() =~= s.drop_last().update(i, e));
        assert(t.last() == s.last());
        assert(s.drop_last()[i] == s[i]);
        assert(unique_keys(s.drop_last())) by {
            assert(forall|a: int, b: int|
                0 <= a < b < s.drop_last().len() ==> s.drop_last()[a] == s[a] && s.drop_last()[b]
                    == s[b]);
        }
        lemma_entries_map_update(s.drop_last(), i, e);
        assert(e.0@ != s.last().0@);
        assert(entries_map(t) == entries_map(t.drop_last()).insert(s.last().0@, s.last().1));
        assert(entries_map(t) =~= entries_map(s).insert(e.0@, e.1));
    }
}

/// Appending a binding with a fresh key inserts it into the map.
pub proof fn lemma_entries_map_push(s: Seq<(String, CmdInfo)>, e: (String, CmdInfo))
    requires
        unique_keys(s),
        !entries_map(s).contains_key(e.0@),
    ensures
        entries_map(s.push(e)) == entries_map(s).insert(e.0@, e.1),
        sum_lens(s.push(e)) == sum_lens(s) + e.1.len,
        unique_keys(s.push(e)),
{
    let t = s.push(e);
    assert(t.drop_last() =~= s);
    assert(t.last() == e);
    lemma_entries_map_contains(s, e.0@);
    assert(unique_keys(t)) by {
        assert(forall|a: int| 0 <= a < s.len() ==> t[a] == s[a]);
        assert(t[t.len() - 1] == e);
        assert(forall|a: int| 0 <= a < s.len() ==> #[trigger] s[a].0@ != e.0@);
    }
}

/// Removing binding `i` removes its key from the map.
pub proof fn lemma_entries_map_remove(s: Seq<(String, CmdInfo)>, i: int)
    requires
        unique_keys(s),
        0 <= i < s.len(),
    ensures
        entries_map(s.remove(i)) =~= entries_map(s).remove(s[i].0@),
        sum_lens(s.remove(i)) == sum_lens(s) - s[i].1.len,
        unique_keys(s.remove(i)),
    decreases s.len(),
{
    let t = s.remove(i);
    assert(unique_keys(t)) by {
        assert(forall|a: int|
            0 <= a < t.len() ==> #[trigger] t[a].0@ == if a < i {
                s[a].0@
            } else {
                s[a + 1].0@
            });
    }
    assert(unique_keys(s.drop_last())) by {
        assert(forall|a: int, b: int|
            0 <= a < b < s.drop_last().len() ==> s.drop_last()[a] == s[a] && s.drop_last()[b]
                == s[b]);
    }
    if i == s.len() - 1 {
        assert(t =~= s.drop_last());
        lemma_entries_map_contains(s.drop_last(), s[i].0@);
        assert(forall|a: int|
            0 <= a < s.drop_last().len() ==> #[trigger] s.drop_last()[a].0@ != s[i].0@);
        assert(!entries_map(s.drop_last()).contains_key(s[i].0@));
        assert(entries_map(t) =~= entries_map(s).remove(s[i].0@));
    } else {
        assert(t.drop_last() =~= s.drop_last().remove(i));
        assert(t.last() == s.last());
        assert(s.drop_last()[i] == s[i]);
        lemma_entries_map_remove(s.drop_last(), i);
        assert(s[i].0@ != s.last().0@);
        assert(entries_map(t) == entries_map(t.drop_last()).insert(s.last().0@, s.last().1));
        assert(entries_map(t) =~= entries_map(s).remove(s[i].0@));
        assert(sum_lens(t) == sum_lens(t.drop_last()) + s.last().1.len);
    }
}

impl View for Index {
    type V = Map<Seq<char>, CmdInfo>;

    closed spec fn view(&self) -> Map<Seq<char>, CmdInfo> {
        entries_map(self.entries@)
    }
}

impl Index {
    /// True when the bindings carry pairwise distinct keys.
    pub closed spec fn wf(&self) -> bool {
        unique_keys(self.entries@)
    }

    /// The total byte length of all records the index points at.
    pub closed spec fn lens_sum(&self) -> nat {
        sum_lens(self.entries@)
    }

    /// An empty index.
    pub fn new() -> (r: Index)
        ensures
            r.wf(),
            r@ == Map::<Seq<char>, CmdInfo>::empty(),
            r.lens_sum() == 0,
    {
        Index { entries: Vec::new() }
    }

    /// The locator bound to `key`, if any.
    pub fn get(&self, key: &String) -> (r: Option<CmdInfo>)
        requires
            self.wf(),
        ensures
            r == (if self@.contains_key(key@) {
                Some(self@[key@])
            } else {
                None::<CmdInfo>
            }),
    {
        let n = self.entries.len();
        let mut i: usize = 0;
        while i < n
            invariant
                self.wf(),
                n == self.entries@.len(),
                0 <= i <= n,
                forall|j: int| 0 <= j < i ==> #[trigger] self.entries@[j].0@ != key@,
            decreases n - i,
        {
            if self.entries[i].0 == *key {
                proof {
                    lemma_entries_map_at(self.entries@, i as int);
                }
                return Some(self.entries[i].1);
            }
            i = i + 1;
        }
        proof {
            lemma_entries_map_contains(self.entries@, key@);
        }
        None
    }

    /// Bind `key` to `info`, handing back the binding it replaces.
    pub fn insert(&mut self, key: String, info: CmdInfo) -> (r: Option<CmdInfo>)
        requires
            old(self).wf(),
        ensures
            final(self).wf(),
            final(self)@ == old(self)@.insert(key@, info),
            r == (if old(self)@.contains_key(key@) {
                Some(old(self)@[key@])
            } else {
                None::<CmdInfo>
            }),
            final(self).lens_sum() == old(self).lens_sum() + info.len - (match r {
                Some(old_info) => old_info.len,
                None => 0,
            }),
    {
        let n = self.entries.len();
        let mut i: usize = 0;
        while i < n
            invariant
                self.wf(),
                self == old(self),
                n == self.entries@.len(),
                0 <= i <= n,
                forall|j: int| 0 <= j < i ==> #[trigger] self.entries@[j].0@ != key@,
            decreases n - i,
        {
            if self.entries[i].0 == *&key {
                let prev = self.entries[i].1;
                proof {
                    lemma_entries_map_at(self.entries@, i as int);
                    lemma_entries_map_update(self.entries@, i as int, (key, info));
                }
                self.entries.set(i, (key, info));
                return Some(prev);
            }
            i = i + 1;
        }
        proof {
            lemma_entries_map_contains(self.entries@, key@);
            lemma_entries_map_push(self.entries@, (key, info));
        }
        self.entries.push((key, info));
        None
    }

    /// Drop the binding of `key`, handing back what it was.
    pub fn remove(&mut self, key: &String) -> (r: Option<CmdInfo>)
        requires
            old(self).wf(),
        ensures
            final(self).wf(),
            final(self)@ == old(self)@.remove(key@),
            r == (if old(self)@.contains_key(key@) {
                Some(old(self)@[key@])
            } else {
                None::<CmdInfo>
            }),
            final(self).lens_sum() == old(self).lens_sum() - (match r {
                Some(old_info) => old_info.len,
                None => 0,
            }),
    {
        let n = self.entries.len();
        let mut i: usize = 0;
        while i < n
            invariant
                self.wf(),
                self == old(self),
                n == self.entries@.len(),
                0 <= i <= n,
                forall|j: int| 0 <= j < i ==> #[trigger] self.entries@[j].0@ != key@,
            decreases n - i,
        {
            if self.entries[i].0 == *key {
                let prev = self.entries[i].1;
                proof {
                    lemma_entries_map_at(self.entries@, i as int);
                    lemma_entries_map_remove(self.entries@, i as int);
                }
                self.entries.remove(i);
                return Some(prev);
            }
            i = i + 1;
        }
        proof {
            lemma_entries_map_contains(self.entries@, key@);
            assert(self@ =~= self@.remove(key@));
        }
        None
    }

    /// How many keys the index holds.
    pub fn len(&self) -> (r: usize)
        requires
            self.wf(),
        ensures
            r == self.entries_len(),
            r == 0 ==> self@ =~= Map::<Seq<char>, CmdInfo>::empty(),
            r == 0 ==> self.lens_sum() == 0,
            r != 0 ==> exists|k: Seq<char>| #[trigger] self@.contains_key(k),
    {
        proof {
            if self.entries@.len() != 0 {
                lemma_entries_map_at(self.entries@, 0);
                assert(self@.contains_key(self.entries@[0].0@));
            }
        }
        self.entries.len()
    }

    /// The count of bindings; equals the count of keys.
    pub closed spec fn entries_len(&self) -> nat {
        self.entries@.len()
    }

    /// Every binding, copied out: the whole mapping as a list.
    ///
    /// The compactor drives its merge pass from this.
    pub fn snapshot(&self) -> (r: Vec<(String, CmdInfo)>)
        requires
            self.wf(),
        ensures
            r@.len() == self.entries_len(),
            forall|i: int, j: int| 0 <= i < j < r@.len() ==> #[trigger] r@[i].0@ != #[trigger] r@[j].0@,
            forall|i: int|
                0 <= i < r@.len() ==> self@.contains_key(#[trigger] r@[i].0@) && self@[r@[i].0@]
                    == r@[i].1,
            forall|k: Seq<char>|
                self@.contains_key(k) ==> exists|i: int| 0 <= i < r@.len() && #[trigger] r@[i].0@
                    == k,
    {
        let n = self.entries.len();
        let mut out: Vec<(String, CmdInfo)> = Vec::new();
        let mut i: usize = 0;
        while i < n
            invariant
                self.wf(),
                n == self.entries@.len(),
                0 <= i <= n,
                out@.len() == i,
                forall|j: int|
                    0 <= j < i ==> #[trigger] out@[j].0@ == self.entries@[j].0@ && out@[j].1
                        == self.entries@[j].1,
            decreases n - i,
        {
            let key = self.entries[i].0.clone();
            let info = self.entries[i].1;
            out.push((key, info));
            i = i + 1;
        }
        proof {
            assert forall|i2: int|
                0 <= i2 < out@.len() implies self@.contains_key(#[trigger] out@[i2].0@)
                && self@[out@[i2].0@] == out@[i2].1 by {
                lemma_entries_map_at(self.entries@, i2);
            }
            assert forall|k: Seq<char>| self@.contains_key(k) implies exists|i2: int|
                0 <= i2 < out@.len() && #[trigger] out@[i2].0@ == k by {
                lemma_entries_map_contains(self.entries@, k);
                let i2 = choose|i2: int|
                    0 <= i2 < self.entries@.len() && #[trigger] self.entries@[i2].0@ == k;
                assert(out@[i2].0@ == k);
            }
        }
        out
    }
}

} // verus!
