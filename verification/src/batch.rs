//! The stat batcher: accumulates (inode, path) pairs for files awaiting a
//! size query and hands them back sorted ascending by inode number, so that
//! the embedding program can issue the metadata queries in inode-table order.

use vstd::prelude::*;

verus! {

/// The flush threshold used when none is chosen explicitly.
pub const DEFAULT_STAT_BATCH: usize = 5000;

/// One file awaiting a size query: its inode number and its path.
#[derive(Debug)]
pub struct StatEntry {
    pub ino: u64,
    pub path: String,
}

/// Ascending inode order over a whole sequence of entries.
pub open spec fn sorted_by_ino(s: Seq<StatEntry>) -> bool {
    forall|a: int, b: int| #![trigger s[a], s[b]] 0 <= a <= b < s.len() ==> s[a].ino <= s[b].ino
}

/// Accumulates file paths awaiting a size query; flushed in bounded chunks
/// sorted by inode number.
pub struct StatBatcher {
    entries: Vec<StatEntry>,
    threshold: usize,
}

impl StatBatcher {
    /// The entries currently held, in the order they were offered.
    pub closed spec fn entries_seq(self) -> Seq<StatEntry> {
        self.entries@
    }

    /// The configured flush threshold.
    pub closed spec fn spec_threshold(self) -> int {
        self.threshold as int
    }

    /// An empty batcher with the default flush threshold.
    pub fn new() -> (r: StatBatcher)
        ensures
            r.entries_seq() == Seq::<StatEntry>::empty(),
            r.spec_threshold() == DEFAULT_STAT_BATCH as int,
    {
        StatBatcher { entries: Vec::new(), threshold: DEFAULT_STAT_BATCH }
    }

    /// An empty batcher flushing once `threshold` entries have accumulated.
    pub fn with_threshold(threshold: usize) -> (r: StatBatcher)
        ensures
            r.entries_seq() == Seq::<StatEntry>::empty(),
            r.spec_threshold() == threshold as int,
    {
        StatBatcher { entries: Vec::new(), threshold }
    }

    /// Appends one file to the current batch.
    pub fn offer(&mut self, ino: u64, path: String)
        ensures
            final(self).entries_seq() == old(self).entries_seq().push(StatEntry { ino, path }),
            final(self).spec_threshold() == old(self).spec_threshold(),
    {
        self.entries.push(StatEntry { ino, path });
    }

    /// How many entries the current batch holds.
    pub fn len(&self) -> (r: usize)
        ensures
            r == self.entries_seq().len(),
    {
        self.entries.len()
    }

    /// True when the batch is due to be flushed: it has reached the
    /// threshold, or no more files will ever be offered.
    pub fn should_flush(&self, is_final: bool) -> (r: bool)
        ensures
            r == (self.entries_seq().len() >= self.spec_threshold() || is_final),
    {
        self.entries.len() >= self.threshold || is_final
    }

    /// Empties the batch and returns its entries sorted ascending by inode
    /// number; the result holds exactly the entries that were offered.
    pub fn take_batch(&mut self) -> (r: Vec<StatEntry>)
        ensures
            sorted_by_ino(r@),
            r@.to_multiset() == old(self).entries_seq().to_multiset(),
            final(self).entries_seq() == Seq::<StatEntry>::empty(),
            final(self).spec_threshold() == old(self).spec_threshold(),
    {
        sort_entries(&mut self.entries);
        let ghost sorted = self.entries@;
        let r = self.entries.split_off(0);
        proof {
            assert(self.entries@ =~= Seq::<StatEntry>::empty());
            assert(r@ =~= sorted);
        }
        r
    }
}

/// Insertion sort ascending by inode number; keeps exactly the same entries.
fn sort_entries(v: &mut Vec<StatEntry>)
    ensures
        sorted_by_ino(final(v)@),
        final(v)@.to_multiset() == old(v)@.to_multiset(),
        final(v)@.len() == old(v)@.len(),
{
    broadcast use vstd::seq_lib::group_to_multiset_ensures;
    broadcast use vstd::multiset::group_multiset_axioms;

    let ghost orig = v@;
    let mut i: usize = 1;
    while i < v.len()
        invariant
            1 <= i,
            v@.len() == orig.len(),
            v@.to_multiset() == orig.to_multiset(),
            forall|a: int, b: int| #![trigger v@[a], v@[b]]
                0 <= a <= b < i && b < v@.len() ==> v@[a].ino <= v@[b].ino,
        decreases v@.len() - i,
    {
        let ghost prev = v@;
        let x = v.remove(i);
        let ghost xv = x;
        let ghost s1 = v@;
        proof {
            assert forall|a: int| 0 <= a < i implies s1[a] == prev[a] by {}
            assert forall|a: int, b: int| #![trigger s1[a], s1[b]]
                0 <= a <= b < i implies s1[a].ino <= s1[b].ino by {
                assert(s1[a] == prev[a]);
                assert(s1[b] == prev[b]);
            }
        }
        let mut q: usize = 0;
        while q < i && v[q].ino <= x.ino
            invariant
                0 <= q <= i,
                i < orig.len(),
                v@ == s1,
                xv == x,
                v@.len() == orig.len() - 1,
                forall|a: int| 0 <= a < q ==> #[trigger] v@[a].ino <= xv.ino,
            decreases i - q,
        {
            q = q + 1;
        }
        proof {
            assert(q < i ==> s1[q as int].ino > xv.ino);
        }
        v.insert(q, x);
        proof {
            assert(v@ == s1.insert(q as int, xv));
            assert forall|a: int, b: int| #![trigger v@[a], v@[b]]
                0 <= a <= b < i + 1 && b < v@.len() implies v@[a].ino <= v@[b].ino by {
                if a < q && b > q {
                    assert(v@[a] == s1[a]);
                    assert(v@[b] == s1[b - 1]);
                } else if a == q && b > q {
                    assert(v@[a] == xv);
                    assert(v@[b] == s1[b - 1]);
                    assert(s1[q as int].ino > xv.ino);
                    assert(s1[q as int].ino <= s1[b - 1].ino);
                } else if a < q && b == q {
                    assert(v@[a] == s1[a]);
                    assert(v@[b] == xv);
                } else if a < q && b < q {
                    assert(v@[a] == s1[a]);
                    assert(v@[b] == s1[b]);
                }
            }
            assert(v@.to_multiset() == orig.to_multiset()) by {
                vstd::seq_lib::to_multiset_remove(prev, i as int);
                vstd::seq_lib::to_multiset_insert(s1, q as int, xv);
                assert(s1.to_multiset() == prev.to_multiset().remove(xv));
                assert(v@.to_multiset() == s1.to_multiset().insert(xv));
                assert(prev.contains(xv));
                vstd::seq_lib::to_multiset_contains(prev, xv);
                assert(prev.to_multiset().count(xv) > 0);
                assert(v@.to_multiset() =~= prev.to_multiset());
            }
        }
        i = i + 1;
    }
}

} // verus!
