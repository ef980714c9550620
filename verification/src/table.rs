//! The correlation table: a mapping from correlation key to the single
//! waiter registered for that key.
//!
//! The table is the sole structure shared between the request engine and the
//! background receiver.  Both remove entries through [`CorrelationTable::take`],
//! whose removal is idempotent: whichever side removes an entry first wins,
//! and the later caller observes `None` and an unchanged table.

use vstd::prelude::*;
use crate::packet::CorrelationKey;

verus! {

/// Does some entry of `s` carry the key `k`?
pub open spec fn seq_has_key<V>(s: Seq<(CorrelationKey, V)>, k: CorrelationKey) -> bool {
    exists|i: int| 0 <= i < s.len() && s[i].0 == k
}

/// The waiter stored under `k`, meaningful only when `seq_has_key(s, k)`.
pub open spec fn seq_value_of<V>(s: Seq<(CorrelationKey, V)>, k: CorrelationKey) -> V {
    s[choose|i: int| 0 <= i < s.len() && s[i].0 == k].1
}

/// A table of in-flight exchanges, viewed as a `Map` from correlation key to
/// waiter.  An entry exists exactly while a request is awaiting a response
/// for that key.
pub struct CorrelationTable<V> {
    entries: Vec<(CorrelationKey, V)>,
}

impl<V> View for CorrelationTable<V> {
    type V = Map<CorrelationKey, V>;

    closed spec fn view(&self) -> Map<CorrelationKey, V> {
        Map::new(
            |k: CorrelationKey| seq_has_key(self.entries@, k),
            |k: CorrelationKey| seq_value_of(self.entries@, k),
        )
    }
}

impl<V> CorrelationTable<V> {
    /// No key occurs in two entries: at most one live waiter per key.
    #[verifier::type_invariant]
    spec fn unique_keys(self) -> bool {
        forall|i: int, j: int|
            0 <= i < j < self.entries@.len() ==> (#[trigger] self.entries@[i]).0 != (
            #[trigger] self.entries@[j]).0
    }

    /// An empty table.
    pub fn new() -> (t: Self)
        ensures
            t@ == Map::<CorrelationKey, V>::empty(),
    {
        let t = CorrelationTable { entries: Vec::new() };
        proof {
            assert(t@ =~= Map::<CorrelationKey, V>::empty());
        }
        t
    }

    /// The index of the entry carrying `k`, if any.
    fn find(&self, k: CorrelationKey) -> (r: Option<usize>)
        ensures
            match r {
                Some(i) => i < self.entries@.len() && self.entries@[i as int].0 == k,
                None => !seq_has_key(self.entries@, k),
            },
    {
        let n = self.entries.len();
        let mut i: usize = 0;
        while i < n
            invariant
                i <= n,
                n == self.entries@.len(),
                forall|j: int| 0 <= j < i ==> (#[trigger] self.entries@[j]).0 != k,
            decreases n - i,
        {
            if self.entries[i].0 == k {
                return Some(i);
            }
            i += 1;
        }
        None
    }

    /// Whether a waiter is currently registered under `k`.
    pub fn contains(&self, k: CorrelationKey) -> (r: bool)
        ensures
            r == self@.dom().contains(k),
    {
        self.find(k).is_some()
    }

    /// Registers `v` as the waiter for `k`, overwriting (and orphaning) any
    /// waiter already registered under that key.
    pub fn insert(&mut self, k: CorrelationKey, v: V)
        ensures
            final(self)@ == old(self)@.insert(k, v),
    {
        let _orphaned = self.take(k);
        proof {
            use_type_invariant(&*self);
            assert(!self@.dom().contains(k));
        }
        let ghost mid = self.entries@;
        let ghost mid_map = self@;
        proof {
            assert(!seq_has_key(mid, k));
        }
        let mut entries = Vec::new();
        std::mem::swap(&mut entries, &mut self.entries);
        entries.push((k, v));
        proof {
            assert forall|i: int, j: int| 0 <= i < j < entries@.len() implies (
            #[trigger] entries@[i]).0 != (#[trigger] entries@[j]).0 by {
                if j == mid.len() {
                    assert(entries@[i] == mid[i]);
                }
            }
        }
        std::mem::swap(&mut entries, &mut self.entries);
        proof {
            let post = self.entries@;
            assert(post == mid.push((k, v)));
            assert forall|kk: CorrelationKey| #[trigger]
                self@.dom().contains(kk) || mid_map.insert(k, v).dom().contains(kk) implies
                self@.dom().contains(kk) == mid_map.insert(k, v).dom().contains(kk) && (
            self@.dom().contains(kk) ==> self@[kk] == mid_map.insert(k, v)[kk]) by {
                if kk == k {
                    assert(post[mid.len() as int].0 == k);
                    lemma_value_at(post, k, mid.len() as int);
                } else {
                    if seq_has_key(post, kk) {
                        let i = choose|i: int| 0 <= i < post.len() && post[i].0 == kk;
                        assert(i < mid.len());
                        assert(mid[i].0 == kk);
                        lemma_value_at(post, kk, i);
                        lemma_value_at(mid, kk, i);
                    }
                    if seq_has_key(mid, kk) {
                        let i = choose|i: int| 0 <= i < mid.len() && mid[i].0 == kk;
                        assert(post[i].0 == kk);
                    }
                }
            }
            assert(self@ =~= mid_map.insert(k, v));
            assert(mid_map.insert(k, v) =~= old(self)@.insert(k, v));
        }
    }

    /// Atomically removes and returns the waiter for `k`.  The second of two
    /// removals of the same key finds nothing and leaves the table as it is,
    /// so cleanup after delivery (and delivery after cleanup) is harmless.
    pub fn take(&mut self, k: CorrelationKey) -> (r: Option<V>)
        ensures
            old(self)@.dom().contains(k) ==> r == Some(old(self)@[k]) && final(self)@ == old(
                self,
            )@.remove(k),
            !old(self)@.dom().contains(k) ==> r is None && final(self)@ == old(self)@,
    {
        proof {
            use_type_invariant(&*self);
        }
        let found = self.find(k);
        match found {
            None => {
                assert(!self@.dom().contains(k));
                None
            },
            Some(i) => {
                let ghost pre = self.entries@;
                let mut entries = Vec::new();
                std::mem::swap(&mut entries, &mut self.entries);
                let pair = entries.remove(i);
                std::mem::swap(&mut entries, &mut self.entries);
                proof {
                    let post = self.entries@;
                    assert forall|a: int, b: int| 0 <= a < b < post.len() implies (
                    #[trigger] post[a]).0 != (#[trigger] post[b]).0 by {
                        assert(post[a] == if a < i { pre[a] } else { pre[a + 1] });
                        assert(post[b] == if b < i { pre[b] } else { pre[b + 1] });
                    }
                    lemma_value_at(pre, k, i as int);
                    assert forall|kk: CorrelationKey| #[trigger]
                        self@.dom().contains(kk) || old(self)@.remove(k).dom().contains(kk) implies
                        self@.dom().contains(kk) == old(self)@.remove(k).dom().contains(kk) && (
                    self@.dom().contains(kk) ==> self@[kk] == old(self)@.remove(k)[kk]) by {
                        if seq_has_key(post, kk) {
                            let a = choose|a: int| 0 <= a < post.len() && post[a].0 == kk;
                            let b: int = if a < i { a } else { a + 1 };
                            assert(post[a] == pre[b]);
                            assert(kk != k ==> seq_has_key(pre, kk));
                            if kk == k {
                                assert(pre[b].0 == k && pre[i as int].0 == k && b != i);
                                assert(false);
                            }
                            lemma_value_at(post, kk, a);
                            lemma_value_at(pre, kk, b);
                        } else if kk != k && seq_has_key(pre, kk) {
                            let b = choose|b: int| 0 <= b < pre.len() && pre[b].0 == kk;
                            assert(b != i);
                            let a: int = if b < i { b } else { b - 1 };
                            assert(post[a] == pre[b]);
                            assert(seq_has_key(post, kk));
                            assert(false);
                        }
                    }
                    assert(self@ =~= old(self)@.remove(k));
                }
                Some(pair.1)
            },
        }
    }

    /// How many exchanges are currently in flight.
    pub fn len(&self) -> (n: usize)
        ensures
            n == self@.dom().len(),
    {
        proof {
            use_type_invariant(self);
            lemma_unique_key_count(self.entries@);
            assert(self@.dom() =~= key_set(self.entries@));
        }
        self.entries.len()
    }
}

/// The set of keys occurring in `s`.
pub open spec fn key_set<V>(s: Seq<(CorrelationKey, V)>) -> Set<CorrelationKey> {
    Set::new(|k: CorrelationKey| seq_has_key(s, k))
}

/// With unique keys, the key set is as large as the entry sequence.
proof fn lemma_unique_key_count<V>(s: Seq<(CorrelationKey, V)>)
    requires
        forall|i: int, j: int| 0 <= i < j < s.len() ==> (#[trigger] s[i]).0 != (#[trigger] s[j]).0,
    ensures
        key_set(s).finite(),
        key_set(s).len() == s.len(),
    decreases s.len(),
{
    if s.len() == 0 {
        assert(key_set(s) =~= Set::<CorrelationKey>::empty());
    } else {
        let head = s.drop_last();
        let last = s.last();
        lemma_unique_key_count(head);
        assert forall|k: CorrelationKey| seq_has_key(s, k) && k != last.0 implies seq_has_key(
            head,
            k,
        ) by {
            let i = choose|i: int| 0 <= i < s.len() && s[i].0 == k;
            assert(head[i] == s[i]);
        }
        assert forall|k: CorrelationKey| seq_has_key(head, k) implies seq_has_key(s, k) by {
            let i = choose|i: int| 0 <= i < head.len() && head[i].0 == k;
            assert(s[i] == head[i]);
        }
        assert(!seq_has_key(head, last.0));
        assert(seq_has_key(s, last.0)) by {
            assert(s[s.len() - 1].0 == last.0);
        }
        assert(key_set(s) =~= key_set(head).insert(last.0));
    }
}

/// With unique keys, an entry `(k, v)` at any index fixes the value the view
/// associates with `k`.
proof fn lemma_value_at<V>(s: Seq<(CorrelationKey, V)>, k: CorrelationKey, i: int)
    requires
        forall|a: int, b: int| 0 <= a < b < s.len() ==> (#[trigger] s[a]).0 != (#[trigger] s[b]).0,
        0 <= i < s.len(),
        s[i].0 == k,
    ensures
        seq_has_key(s, k),
        seq_value_of(s, k) == s[i].1,
{
    let j = choose|j: int| 0 <= j < s.len() && s[j].0 == k;
    if j != i {
        if j < i {
            assert(s[j].0 != s[i].0);
        } else {
            assert(s[i].0 != s[j].0);
        }
    }
}

} // verus!
