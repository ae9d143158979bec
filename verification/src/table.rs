//! Association table from `u64` keys to values, backed by a vector of
//! key-value entries with pairwise distinct keys. Its abstract view is a
//! finite map. The element arena and the position overlay are both built
//! on this table.

use vstd::prelude::*;

verus! {

/// True when no two entries of `s` share a key.
pub open spec fn entry_keys_distinct<V>(s: Seq<(u64, V)>) -> bool {
    forall|i: int, j: int| 0 <= i < j < s.len() ==> s[i].0 != s[j].0
}

/// The finite map described by an entry sequence; a later entry for the
/// same key wins.
pub(crate) open spec fn entries_to_map<V>(s: Seq<(u64, V)>) -> Map<u64, V>
    decreases s.len(),
{
    if s.len() == 0 {
        Map::empty()
    } else {
        entries_to_map(s.drop_last()).insert(s.last().0, s.last().1)
    }
}

pub(crate) proof fn lemma_e2m_dom<V>(s: Seq<(u64, V)>)
    ensures
        entries_to_map(s).dom().finite(),
        forall|k: u64|
            entries_to_map(s).dom().contains(k) <==> exists|i: int|
                0 <= i < s.len() && #[trigger] s[i].0 == k,
    decreases s.len(),
{
    if s.len() == 0 {
    } else {
        lemma_e2m_dom(s.drop_last());
        assert forall|k: u64| entries_to_map(s).dom().contains(k) implies exists|i: int|
            0 <= i < s.len() && #[trigger] s[i].0 == k by {
            if k == s.last().0 {
                assert(s[s.len() - 1].0 == k);
            } else {
                let i = choose|i: int| 0 <= i < s.drop_last().len() && #[trigger] s.drop_last()[i].0
                    == k;
                assert(s[i].0 == k);
            }
        }
        assert forall|k: u64|
            exists|i: int| 0 <= i < s.len() && #[trigger] s[i].0 == k implies entries_to_map(
            s,
        ).dom().contains(k) by {
            let i = choose|i: int| 0 <= i < s.len() && #[trigger] s[i].0 == k;
            if i < s.len() - 1 {
                assert(s.drop_last()[i].0 == k);
            }
        }
    }
}

pub(crate) proof fn lemma_e2m_get<V>(s: Seq<(u64, V)>, i: int)
    requires
        entry_keys_distinct(s),
        0 <= i < s.len(),
    ensures
        entries_to_map(s).dom().contains(s[i].0),
        entries_to_map(s)[s[i].0] == s[i].1,
    decreases s.len(),
{
    if i == s.len() - 1 {
    } else {
        assert(s.drop_last()[i] == s[i]);
        lemma_e2m_get(s.drop_last(), i);
        assert(s.last().0 != s[i].0);
    }
}

pub(crate) proof fn lemma_e2m_len<V>(s: Seq<(u64, V)>)
    requires
        entry_keys_distinct(s),
    ensures
        entries_to_map(s).dom().len() == s.len(),
    decreases s.len(),
{
    lemma_e2m_dom(s);
    if s.len() == 0 {
    } else {
        lemma_e2m_len(s.drop_last());
        lemma_e2m_dom(s.drop_last());
        assert(!entries_to_map(s.drop_last()).dom().contains(s.last().0)) by {
            if entries_to_map(s.drop_last()).dom().contains(s.last().0) {
                let i = choose|i: int|
                    0 <= i < s.drop_last().len() && #[trigger] s.drop_last()[i].0 == s.last().0;
                assert(s[i].0 == s[s.len() - 1].0);
            }
        }
    }
}

pub(crate) proof fn lemma_e2m_remove_at<V>(s: Seq<(u64, V)>, i: int)
    requires
        entry_keys_distinct(s),
        0 <= i < s.len(),
    ensures
        entry_keys_distinct(s.remove(i)),
        entries_to_map(s.remove(i)) == entries_to_map(s).remove(s[i].0),
    decreases s.len(),
{
    if i == s.len() - 1 {
        assert(s.remove(i) =~= s.drop_last());
        lemma_e2m_dom(s.drop_last());
        assert(!entries_to_map(s.drop_last()).dom().contains(s.last().0)) by {
            if entries_to_map(s.drop_last()).dom().contains(s.last().0) {
                let j = choose|j: int|
                    0 <= j < s.drop_last().len() && #[trigger] s.drop_last()[j].0 == s.last().0;
                assert(s[j].0 == s[s.len() - 1].0);
            }
        }
        assert(entries_to_map(s.drop_last()) =~= entries_to_map(s).remove(s[i].0));
    } else {
        assert(s.remove(i).drop_last() =~= s.drop_last().remove(i));
        assert(s.remove(i).last() == s.last());
        assert(entry_keys_distinct(s.drop_last()));
        lemma_e2m_remove_at(s.drop_last(), i);
        assert(s.drop_last()[i] == s[i]);
        assert(s.last().0 != s[i].0);
        assert(entries_to_map(s.remove(i)) == entries_to_map(s.drop_last().remove(i)).insert(
            s.last().0,
            s.last().1,
        ));
        assert(entries_to_map(s.drop_last()).remove(s[i].0).insert(s.last().0, s.last().1)
            =~= entries_to_map(s.drop_last()).insert(s.last().0, s.last().1).remove(s[i].0));
        assert(entry_keys_distinct(s.remove(i))) by {
            assert forall|p: int, q: int| 0 <= p < q < s.remove(i).len() implies s.remove(i)[p].0
                != s.remove(i)[q].0 by {
                let p0 = if p < i {
                    p
                } else {
                    p + 1
                };
                let q0 = if q < i {
                    q
                } else {
                    q + 1
                };
                assert(s.remove(i)[p] == s[p0]);
                assert(s.remove(i)[q] == s[q0]);
            }
        }
    }
}

/// Two tables with the same entries have the same map view.
pub(crate) proof fn lemma_same_entries_same_view<V>(a: Table<V>, b: Table<V>)
    requires
        a.entries_seq() == b.entries_seq(),
    ensures
        a@ == b@,
{
}

/// The table itself: a vector of entries with pairwise distinct keys.
/// Public only as a field type; its operations are the crate's own.
pub struct Table<V> {
    entries: Vec<(u64, V)>,
}

impl<V> View for Table<V> {
    type V = Map<u64, V>;

    closed spec fn view(&self) -> Map<u64, V> {
        entries_to_map(self.entries@)
    }
}

impl<V> Table<V> {
    /// The entry sequence behind the map view; the codec and the
    /// order-sensitive scans read it.
    pub(crate) closed spec fn entries_seq(self) -> Seq<(u64, V)> {
        self.entries@
    }

    /// Keys are pairwise distinct.
    pub(crate) closed spec fn wf(self) -> bool {
        entry_keys_distinct(self.entries@)
    }

    pub(crate) proof fn lemma_view_dom(self)
        ensures
            self@.dom().finite(),
            forall|k: u64|
                self@.dom().contains(k) <==> exists|i: int|
                    0 <= i < self.entries_seq().len() && #[trigger] self.entries_seq()[i].0 == k,
    {
        lemma_e2m_dom(self.entries@);
        assert forall|k: u64| self@.dom().contains(k) implies exists|i: int|
            0 <= i < self.entries_seq().len() && #[trigger] self.entries_seq()[i].0 == k by {
            let i = choose|i: int| 0 <= i < self.entries@.len() && #[trigger] self.entries@[i].0
                == k;
            assert(self.entries_seq()[i].0 == k);
        }
        assert forall|k: u64|
            (exists|i: int| 0 <= i < self.entries_seq().len() && #[trigger] self.entries_seq()[i].0
                == k) implies self@.dom().contains(k) by {
            let i = choose|i: int|
                0 <= i < self.entries_seq().len() && #[trigger] self.entries_seq()[i].0 == k;
            assert(self.entries@[i].0 == k);
        }
    }

    pub(crate) proof fn lemma_entry_view(self, i: int)
        requires
            self.wf(),
            0 <= i < self.entries_seq().len(),
        ensures
            self@.dom().contains(self.entries_seq()[i].0),
            self@[self.entries_seq()[i].0] == self.entries_seq()[i].1,
    {
        lemma_e2m_get(self.entries@, i);
    }

    pub(crate) proof fn lemma_len_bounded(self)
        ensures
            self.entries_seq().len() <= usize::MAX,
    {
        broadcast use vstd::std_specs::vec::axiom_spec_len;

        assert(vstd::std_specs::vec::spec_vec_len(&self.entries) == self.entries@.len());
    }

    pub(crate) proof fn lemma_entries_distinct(self)
        requires
            self.wf(),
        ensures
            entry_keys_distinct(self.entries_seq()),
    {
    }

    pub(crate) proof fn lemma_view_len(self)
        requires
            self.wf(),
        ensures
            self@.dom().len() == self.entries_seq().len(),
    {
        lemma_e2m_len(self.entries@);
    }

    pub(crate) fn new() -> (r: Self)
        ensures
            r@ == Map::<u64, V>::empty(),
            r.entries_seq() == Seq::<(u64, V)>::empty(),
            r.wf(),
    {
        Table { entries: Vec::new() }
    }

    pub(crate) fn len(&self) -> (r: usize)
        ensures
            r == self.entries_seq().len(),
    {
        self.entries.len()
    }

    pub(crate) fn has(&self, k: u64) -> (r: bool)
        ensures
            r == self@.dom().contains(k),
    {
        proof {
            lemma_e2m_dom(self.entries@);
        }
        let n = self.entries.len();
        let mut i: usize = 0;
        while i < n
            invariant
                n == self.entries@.len(),
                0 <= i <= n,
                forall|j: int| 0 <= j < i ==> self.entries@[j].0 != k,
            decreases n - i,
        {
            if self.entries[i].0 == k {
                proof {
                    assert(self.entries@[i as int].0 == k);
                }
                return true;
            }
            i = i + 1;
        }
        false
    }

    pub(crate) fn remove(&mut self, k: u64) -> (r: Option<V>)
        requires
            old(self).wf(),
        ensures
            final(self).wf(),
            final(self)@ == old(self)@.remove(k),
            old(self)@.dom().contains(k) ==> r == Some(old(self)@[k]),
            !old(self)@.dom().contains(k) ==> r == None::<V> && final(self)@ == old(self)@,
            forall|i: int|
                0 <= i < final(self).entries_seq().len() ==> #[trigger] final(self).entries_seq()[i].0 != k,
    {
        proof {
            lemma_e2m_dom(self.entries@);
        }
        let ghost s0 = self.entries@;
        let n = self.entries.len();
        let mut i: usize = 0;
        while i < n
            invariant
                n == s0.len(),
                0 <= i <= n,
                self.entries@ == s0,
                forall|j: int| 0 <= j < i ==> self.entries@[j].0 != k,
            decreases n - i,
        {
            if self.entries[i].0 == k {
                proof {
                    lemma_e2m_get(self.entries@, i as int);
                    lemma_e2m_remove_at(self.entries@, i as int);
                }
                let p = self.entries.remove(i);
                proof {
                    assert forall|j: int| 0 <= j < self.entries@.len() implies #[trigger] self.entries@[j].0
                        != k by {
                        let j0 = if j < i {
                            j
                        } else {
                            j + 1
                        };
                        assert(self.entries@[j] == s0[j0]);
                        if j0 > i {
                            assert(s0[i as int].0 == k);
                        }
                    }
                }
                return Some(p.1);
            }
            i = i + 1;
        }
        proof {
            assert(!self@.dom().contains(k));
            assert(self@.remove(k) =~= self@);
        }
        None
    }

    pub(crate) fn insert(&mut self, k: u64, v: V)
        requires
            old(self).wf(),
        ensures
            final(self).wf(),
            final(self)@ == old(self)@.insert(k, v),
    {
        self.remove(k);
        let ghost s1 = self.entries@;
        proof {
            assert forall|i: int| 0 <= i < s1.len() implies s1[i].0 != k by {
                assert(self.entries_seq()[i].0 != k);
            }
        }
        self.entries.push((k, v));
        proof {
            assert(self.entries@.drop_last() =~= s1);
            assert(entries_to_map(self.entries@) == entries_to_map(s1).insert(k, v));
            assert(old(self)@.remove(k).insert(k, v) =~= old(self)@.insert(k, v));
            assert forall|p: int, q: int|
                0 <= p < q < self.entries@.len() implies self.entries@[p].0
                != self.entries@[q].0 by {
                assert(self.entries@[p] == s1[p]);
                if q == self.entries@.len() - 1 {
                    assert(s1[p].0 != k);
                } else {
                    assert(self.entries@[q] == s1[q]);
                }
            }
        }
    }
}

impl<V> Table<V> {
    /// Append an entry whose key is known to be absent; unlike `insert`
    /// this keeps the entry order, which the codec relies on.
    pub(crate) fn push_entry(&mut self, k: u64, v: V)
        requires
            old(self).wf(),
            !old(self)@.dom().contains(k),
        ensures
            final(self).wf(),
            final(self)@ == old(self)@.insert(k, v),
            final(self).entries_seq() == old(self).entries_seq().push((k, v)),
    {
        proof {
            lemma_e2m_dom(self.entries@);
        }
        let ghost s1 = self.entries@;
        self.entries.push((k, v));
        proof {
            assert(self.entries@.drop_last() =~= s1);
            assert(entries_to_map(self.entries@) == entries_to_map(s1).insert(k, v));
            assert forall|p: int, q: int|
                0 <= p < q < self.entries@.len() implies self.entries@[p].0
                != self.entries@[q].0 by {
                assert(self.entries@[p] == s1[p]);
                if q == self.entries@.len() - 1 {
                    if s1[p].0 == k {
                        assert(false);
                    }
                } else {
                    assert(self.entries@[q] == s1[q]);
                }
            }
        }
    }
}

impl<V: Copy> Table<V> {
    pub(crate) fn get(&self, k: u64) -> (r: Option<V>)
        requires
            self.wf(),
        ensures
            self@.dom().contains(k) ==> r == Some(self@[k]),
            !self@.dom().contains(k) ==> r == None::<V>,
    {
        proof {
            lemma_e2m_dom(self.entries@);
        }
        let n = self.entries.len();
        let mut i: usize = 0;
        while i < n
            invariant
                n == self.entries@.len(),
                0 <= i <= n,
                forall|j: int| 0 <= j < i ==> self.entries@[j].0 != k,
            decreases n - i,
        {
            if self.entries[i].0 == k {
                proof {
                    lemma_e2m_get(self.entries@, i as int);
                }
                return Some(self.entries[i].1);
            }
            i = i + 1;
        }
        None
    }

    pub(crate) fn entry_at(&self, i: usize) -> (r: (u64, V))
        requires
            i < self.entries_seq().len(),
        ensures
            r == self.entries_seq()[i as int],
    {
        self.entries[i]
    }
}

} // verus!
