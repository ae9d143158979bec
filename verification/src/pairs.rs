//! A set of `(u64, u64)` pairs backed by a vector without duplicates.
//! The adjacency index stores one such set per direction: a pair
//! `(endpoint, edge)` records that `edge` has `endpoint` as its source
//! (outgoing index) or as its target (incoming index).

use vstd::prelude::*;

verus! {

pub(crate) struct Pairs {
    items: Vec<(u64, u64)>,
}

impl Pairs {
    pub(crate) closed spec fn items_seq(self) -> Seq<(u64, u64)> {
        self.items@
    }

    /// Membership of a pair in the set.
    pub(crate) closed spec fn has(self, a: u64, b: u64) -> bool {
        exists|i: int| 0 <= i < self.items@.len() && #[trigger] self.items@[i] == (a, b)
    }

    /// No pair occurs twice.
    pub(crate) closed spec fn wf(self) -> bool {
        forall|i: int, j: int| 0 <= i < j < self.items@.len() ==> self.items@[i] != self.items@[j]
    }

    pub(crate) fn new() -> (r: Self)
        ensures
            r.wf(),
            forall|a: u64, b: u64| !r.has(a, b),
            r.items_seq() == Seq::<(u64, u64)>::empty(),
    {
        Pairs { items: Vec::new() }
    }

    pub(crate) fn insert(&mut self, a: u64, b: u64)
        requires
            old(self).wf(),
            !old(self).has(a, b),
        ensures
            final(self).wf(),
            forall|x: u64, y: u64|
                final(self).has(x, y) <==> (old(self).has(x, y) || (x, y) == (a, b)),
    {
        let ghost s0 = self.items@;
        self.items.push((a, b));
        proof {
            assert forall|x: u64, y: u64|
                self.has(x, y) <==> (old(self).has(x, y) || (x, y) == (a, b)) by {
                if old(self).has(x, y) {
                    let i = choose|i: int| 0 <= i < s0.len() && #[trigger] s0[i] == (x, y);
                    assert(self.items@[i] == (x, y));
                }
                if (x, y) == (a, b) {
                    assert(self.items@[s0.len() as int] == (x, y));
                }
                if self.has(x, y) {
                    let i = choose|i: int|
                        0 <= i < self.items@.len() && #[trigger] self.items@[i] == (x, y);
                    if i < s0.len() {
                        assert(s0[i] == (x, y));
                    }
                }
            }
            assert forall|i: int, j: int|
                0 <= i < j < self.items@.len() implies self.items@[i] != self.items@[j] by {
                if j == self.items@.len() - 1 {
                    assert(s0[i] == self.items@[i]);
                    if self.items@[i] == (a, b) {
                        assert(old(self).has(a, b));
                    }
                }
            }
        }
    }

    pub(crate) fn remove(&mut self, a: u64, b: u64)
        requires
            old(self).wf(),
        ensures
            final(self).wf(),
            forall|x: u64, y: u64|
                final(self).has(x, y) <==> (old(self).has(x, y) && (x, y) != (a, b)),
    {
        let ghost s0 = self.items@;
        let n = self.items.len();
        let mut i: usize = 0;
        while i < n
            invariant
                n == self.items@.len(),
                0 <= i <= n,
                self.items@ == s0,
                forall|j: int| 0 <= j < i ==> self.items@[j] != (a, b),
            decreases n - i,
        {
            let p = self.items[i];
            if p.0 == a && p.1 == b {
                self.items.remove(i);
                proof {
                    assert forall|x: u64, y: u64|
                        self.has(x, y) <==> (old(self).has(x, y) && (x, y) != (a, b)) by {
                        if self.has(x, y) {
                            let j = choose|j: int|
                                0 <= j < self.items@.len() && #[trigger] self.items@[j] == (x, y);
                            let j0 = if j < i {
                                j
                            } else {
                                j + 1
                            };
                            assert(s0[j0] == (x, y));
                            assert(s0[i as int] == (a, b));
                        }
                        if old(self).has(x, y) && (x, y) != (a, b) {
                            let j = choose|j: int| 0 <= j < s0.len() && #[trigger] s0[j] == (x, y);
                            if j < i {
                                assert(self.items@[j] == (x, y));
                            } else {
                                assert(j != i);
                                assert(self.items@[j - 1] == (x, y));
                            }
                        }
                    }
                    assert forall|p2: int, q: int|
                        0 <= p2 < q < self.items@.len() implies self.items@[p2]
                        != self.items@[q] by {
                        let p0 = if p2 < i {
                            p2
                        } else {
                            p2 + 1
                        };
                        let q0 = if q < i {
                            q
                        } else {
                            q + 1
                        };
                        assert(self.items@[p2] == s0[p0]);
                        assert(self.items@[q] == s0[q0]);
                    }
                }
                return ;
            }
            i = i + 1;
        }
        proof {
            assert(!old(self).has(a, b));
        }
    }

    /// Membership in the set agrees with membership in the per-key
    /// sequence view.
    pub(crate) proof fn lemma_has_iff_seconds(self, a: u64)
        ensures
            forall|b: u64| self.has(a, b) <==> seconds_seq(self.items_seq(), a).contains(b),
    {
        lemma_seconds_seq_contains(self.items@, a);
    }

    /// All second components paired with the given first component: the
    /// edges incident on `a` in this direction, in index order.
    pub(crate) fn seconds_of(&self, a: u64) -> (r: Vec<u64>)
        requires
            self.wf(),
        ensures
            r@ == seconds_seq(self.items_seq(), a),
            forall|b: u64| r@.contains(b) <==> self.has(a, b),
            r@.no_duplicates(),
    {
        let n = self.items.len();
        let mut r: Vec<u64> = Vec::new();
        let mut i: usize = 0;
        while i < n
            invariant
                n == self.items@.len(),
                0 <= i <= n,
                r@ == seconds_seq(self.items@.subrange(0, i as int), a),
            decreases n - i,
        {
            let ghost pre = self.items@.subrange(0, i as int);
            let p = self.items[i];
            if p.0 == a {
                r.push(p.1);
            }
            proof {
                assert(self.items@.subrange(0, i + 1).drop_last() =~= pre);
                assert(self.items@.subrange(0, i + 1).last() == self.items@[i as int]);
            }
            i = i + 1;
        }
        proof {
            assert(self.items@.subrange(0, n as int) =~= self.items@);
            lemma_seconds_seq_contains(self.items@, a);
            assert forall|b: u64| r@.contains(b) <==> self.has(a, b) by {}
            lemma_seconds_seq_distinct(self.items@, a);
        }
        r
    }
}

/// The second components of the pairs whose first component is `a`, in
/// sequence order.
pub(crate) open spec fn seconds_seq(s: Seq<(u64, u64)>, a: u64) -> Seq<u64>
    decreases s.len(),
{
    if s.len() == 0 {
        Seq::empty()
    } else if s.last().0 == a {
        seconds_seq(s.drop_last(), a).push(s.last().1)
    } else {
        seconds_seq(s.drop_last(), a)
    }
}

pub(crate) proof fn lemma_seconds_seq_contains(s: Seq<(u64, u64)>, a: u64)
    ensures
        forall|b: u64|
            seconds_seq(s, a).contains(b) <==> exists|i: int|
                0 <= i < s.len() && #[trigger] s[i] == (a, b),
    decreases s.len(),
{
    if s.len() == 0 {
    } else {
        let d = s.drop_last();
        lemma_seconds_seq_contains(d, a);
        assert forall|b: u64| seconds_seq(s, a).contains(b) implies exists|i: int|
            0 <= i < s.len() && #[trigger] s[i] == (a, b) by {
            if s.last().0 == a && b == s.last().1 {
                assert(s[s.len() - 1] == (a, b));
            } else {
                assert(seconds_seq(d, a).contains(b)) by {
                    if s.last().0 == a {
                        assert(seconds_seq(s, a) == seconds_seq(d, a).push(s.last().1));
                        let k = choose|k: int|
                            0 <= k < seconds_seq(s, a).len() && seconds_seq(s, a)[k] == b;
                        assert(k < seconds_seq(s, a).len() - 1);
                        assert(seconds_seq(d, a)[k] == b);
                    } else {
                        assert(seconds_seq(s, a) == seconds_seq(d, a));
                    }
                }
                let i = choose|i: int| 0 <= i < d.len() && #[trigger] d[i] == (a, b);
                assert(s[i] == (a, b));
            }
        }
        assert forall|b: u64|
            (exists|i: int| 0 <= i < s.len() && #[trigger] s[i] == (a, b)) implies seconds_seq(
            s,
            a,
        ).contains(b) by {
            let i = choose|i: int| 0 <= i < s.len() && #[trigger] s[i] == (a, b);
            if i == s.len() - 1 {
                assert(s.last() == (a, b));
                assert(seconds_seq(s, a).last() == b);
                assert(seconds_seq(s, a)[seconds_seq(s, a).len() - 1] == b);
            } else {
                assert(d[i] == (a, b));
                assert(seconds_seq(d, a).contains(b));
                let k = choose|k: int|
                    0 <= k < seconds_seq(d, a).len() && seconds_seq(d, a)[k] == b;
                if s.last().0 == a {
                    assert(seconds_seq(s, a) == seconds_seq(d, a).push(s.last().1));
                    assert(seconds_seq(s, a)[k] == b);
                } else {
                    assert(seconds_seq(s, a)[k] == b);
                }
            }
        }
    }
}

pub(crate) proof fn lemma_seconds_seq_distinct(s: Seq<(u64, u64)>, a: u64)
    requires
        forall|i: int, j: int| 0 <= i < j < s.len() ==> s[i] != s[j],
    ensures
        seconds_seq(s, a).no_duplicates(),
    decreases s.len(),
{
    if s.len() == 0 {
    } else {
        lemma_seconds_seq_distinct(s.drop_last(), a);
        if s.last().0 == a {
            lemma_seconds_seq_contains(s.drop_last(), a);
            assert(!seconds_seq(s.drop_last(), a).contains(s.last().1)) by {
                if seconds_seq(s.drop_last(), a).contains(s.last().1) {
                    let i = choose|i: int|
                        0 <= i < s.drop_last().len() && #[trigger] s.drop_last()[i] == (
                        a,
                        s.last().1,
                        );
                    assert(s[i] == s[s.len() - 1]);
                }
            }
            assert forall|p: int, q: int|
                0 <= p < q < seconds_seq(s, a).len() implies seconds_seq(s, a)[p] != seconds_seq(
                s,
                a,
            )[q] by {
                if q < seconds_seq(s, a).len() - 1 {
                } else {
                    assert(seconds_seq(s.drop_last(), a).contains(seconds_seq(s, a)[p]));
                }
            }
        }
    }
}

} // verus!
