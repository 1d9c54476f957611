//! The traversal engine: the state of one scan and the decisions it makes,
//! one directory entry at a time.
//!
//! The engine owns the pending set, the stat batcher and the running totals.
//! The embedding program performs the filesystem calls: it asks `next_dir`
//! which directory to list, hands every obtained child to `handle_entry`
//! together with the physical locator's answer, and, when a flush is due,
//! takes the sorted batch, queries each entry's apparent length, and adds the
//! sum back through `add_bytes`.

use vstd::prelude::*;
use crate::batch::{StatBatcher, StatEntry};
use crate::file_type::{FileKind, FileTypeMatcher};
use crate::pending::{PendingSet, PendingView};
use crate::policy::{Order, ScanConfig};

verus! {

/// A discovered filesystem entry: its absolute path, its file-type tag, and
/// its inode number when the listing syscall supplied one.
pub struct DirEntryRef {
    pub path: String,
    pub kind: FileKind,
    pub ino: Option<u64>,
}

/// Whether an entry of kind `k` is counted and listed: under an active
/// filter, exactly the kinds the filter selects; with no filter, regular
/// files.
pub open spec fn spec_matched(filter: Option<FileTypeMatcher>, k: FileKind) -> bool {
    match filter {
        Some(f) => f.spec_is(k),
        None => k == FileKind::Regular,
    }
}

/// Whether an entry of kind `k` is descended into. Only directories are,
/// and the type filter plays no part in it.
pub open spec fn spec_descends(k: FileKind) -> bool {
    k == FileKind::Directory
}

/// The ordered-tier key a subdirectory is enqueued under: the locator's
/// answer under physical/content order, the inode number under inode order,
/// none under dentry order. A missing signal degrades to the FIFO tier.
pub open spec fn spec_dir_key(order: Order, ino: Option<u64>, located: Option<u64>) -> Option<
    u64,
> {
    match order {
        Order::Content => located,
        Order::Inode => ino,
        Order::Dentries => None,
    }
}

/// The inode number used for batching when the listing supplied none.
pub open spec fn spec_ino_or_zero(ino: Option<u64>) -> u64 {
    match ino {
        Some(i) => i,
        None => 0,
    }
}

/// How the pending set evolves when one entry is handled: a directory is
/// enqueued under its key; anything else leaves the pending set alone.
pub open spec fn spec_pending_after(
    v: PendingView,
    kind: FileKind,
    path: Seq<char>,
    ino: Option<u64>,
    located: Option<u64>,
    config: ScanConfig,
) -> PendingView {
    if spec_descends(kind) {
        v.enq(path, spec_dir_key(config.spec_effective_order(), ino, located))
    } else {
        v
    }
}

/// The sum of a sequence of byte lengths.
pub open spec fn spec_sum(s: Seq<u64>) -> int
    decreases s.len(),
{
    if s.len() == 0 {
        0
    } else {
        spec_sum(s.drop_last()) + s.last()
    }
}

/// The state of one scan: configuration fixed at start, the pending set,
/// the stat batcher, and the running totals.
pub struct ScanState {
    config: ScanConfig,
    pending: PendingSet,
    batcher: StatBatcher,
    files: u64,
    bytes: u64,
}

impl ScanState {
    /// The configuration this scan runs under.
    pub closed spec fn spec_config(self) -> ScanConfig {
        self.config
    }

    /// The abstract state of the pending set.
    pub closed spec fn spec_pending(self) -> PendingView {
        self.pending@
    }

    /// The entries the stat batcher currently holds, in offer order.
    pub closed spec fn spec_batch(self) -> Seq<StatEntry> {
        self.batcher.entries_seq()
    }

    /// The stat batcher's flush threshold.
    pub closed spec fn spec_batch_threshold(self) -> int {
        self.batcher.spec_threshold()
    }

    /// The running count of matched entries.
    pub closed spec fn spec_files(self) -> u64 {
        self.files
    }

    /// The running total of apparent byte lengths.
    pub closed spec fn spec_bytes(self) -> u64 {
        self.bytes
    }

    /// The pending set is well formed.
    pub open spec fn wf(self) -> bool {
        self.spec_pending().wf()
    }

    /// A fresh scan over the given roots: every root starts in the FIFO
    /// tier, in the order given, and the totals are zero.
    pub fn new(config: ScanConfig, roots: Vec<String>) -> (r: ScanState)
        ensures
            r.wf(),
            r.spec_config() == config,
            r.spec_files() == 0,
            r.spec_bytes() == 0,
            r.spec_batch() == Seq::<StatEntry>::empty(),
            r.spec_batch_threshold() == crate::batch::DEFAULT_STAT_BATCH as int,
            r.spec_pending().keys == Seq::<u64>::empty(),
            r.spec_pending().fifo == roots.deep_view(),
            r.spec_pending().cursor == 0,
            r.spec_pending().contents() == roots.deep_view().to_multiset(),
    {
        broadcast use vstd::seq_lib::group_to_multiset_ensures;
        broadcast use vstd::multiset::group_multiset_axioms;

        let ghost roots_dv = roots.deep_view();
        let mut pending = PendingSet::new();
        let mut rest = roots;
        while rest.len() > 0
            invariant
                pending@.wf(),
                pending@.keys == Seq::<u64>::empty(),
                pending@.cursor == 0,
                rest@.len() <= roots_dv.len(),
                pending@.fifo =~= roots_dv.take(roots_dv.len() - rest@.len()),
                rest.deep_view() =~= roots_dv.skip(roots_dv.len() - rest@.len()),
            decreases rest@.len(),
        {
            let ghost done = roots_dv.len() - rest@.len();
            let ghost prev_dv = rest.deep_view();
            let p = rest.remove(0);
            proof {
                assert(p@ == prev_dv[0]);
                assert(p@ == roots_dv[done]);
                assert(rest.deep_view() =~= prev_dv.drop_first());
                assert(rest.deep_view() =~= roots_dv.skip(done + 1));
            }
            pending.enqueue(p, None);
            proof {
                assert(pending@.fifo =~= roots_dv.take(done + 1));
            }
        }
        proof {
            assert(pending@.fifo =~= roots_dv);
            assert(pending@.paths =~= Seq::<Seq<char>>::empty());
            pending@.paths.to_multiset_ensures();
            assert(pending@.contents() =~= roots_dv.to_multiset());
        }
        ScanState { config, pending, batcher: StatBatcher::new(), files: 0, bytes: 0 }
    }

    /// Removes and returns the next directory to list, retrying once across
    /// a sweep wraparound. Returns a directory exactly when the pending set
    /// is non-empty: an end-of-sweep wrap is never mistaken for completion.
    pub fn next_dir(&mut self) -> (r: Option<String>)
        requires
            old(self).wf(),
        ensures
            final(self).wf(),
            final(self).spec_config() == old(self).spec_config(),
            final(self).spec_batch() == old(self).spec_batch(),
            final(self).spec_batch_threshold() == old(self).spec_batch_threshold(),
            final(self).spec_files() == old(self).spec_files(),
            final(self).spec_bytes() == old(self).spec_bytes(),
            r is None <==> old(self).spec_pending().is_empty_view(),
            r.deep_view() == crate::pending::deq_forced(old(self).spec_pending()).1,
            final(self).spec_pending() == crate::pending::deq_forced(
                old(self).spec_pending(),
            ).0,
            (match r {
                Some(p) => old(self).spec_pending().contents().count(p@) >= 1
                    && final(self).spec_pending().contents()
                    == old(self).spec_pending().contents().remove(p@),
                None => final(self).spec_pending().contents()
                    == old(self).spec_pending().contents(),
            }),
    {
        let d = self.pending.dequeue();
        match d {
            Some(p) => Some(p),
            None => {
                if self.pending.is_empty() {
                    proof {
                        let v = old(self).spec_pending();
                        let v1 = v.deq().0;
                        assert(v1.deq().1 is None && v1.deq().0 == v1);
                    }
                    None
                } else {
                    proof {
                        let v = old(self).spec_pending();
                        assert(v.fifo.len() == 0);
                        assert(self.pending@.keys == v.keys && self.pending@.cursor == 0);
                        crate::pending::lemma_min_key_ge_props(v.keys, 0u64);
                        if crate::pending::min_key_ge(v.keys, 0u64) is None {
                            assert(v.keys[0] < 0);
                        }
                    }
                    let d2 = self.pending.dequeue();
                    proof {
                        assert(d2 is Some);
                    }
                    d2
                }
            },
        }
    }

    /// Handles one child obtained from listing a directory. A directory is
    /// enqueued for descent whatever the filter says; a matched entry is
    /// counted; a matched regular file is offered to the stat batcher when
    /// size accumulation is on. Returns whether the entry matched (and so
    /// may be listed by the caller).
    pub fn handle_entry(&mut self, entry: DirEntryRef, located: Option<u64>) -> (matched: bool)
        requires
            old(self).wf(),
            spec_matched(old(self).spec_config().filter, entry.kind) ==> old(self).spec_files()
                < u64::MAX,
        ensures
            final(self).wf(),
            final(self).spec_config() == old(self).spec_config(),
            final(self).spec_bytes() == old(self).spec_bytes(),
            final(self).spec_batch_threshold() == old(self).spec_batch_threshold(),
            matched == spec_matched(old(self).spec_config().filter, entry.kind),
            final(self).spec_files() == old(self).spec_files() + (if matched {
                1int
            } else {
                0int
            }),
            final(self).spec_pending() == spec_pending_after(
                old(self).spec_pending(),
                entry.kind,
                entry.path@,
                entry.ino,
                located,
                old(self).spec_config(),
            ),
            spec_descends(entry.kind) ==> final(self).spec_pending().contents()
                == old(self).spec_pending().contents().insert(entry.path@)
                && final(self).spec_batch() == old(self).spec_batch(),
            !spec_descends(entry.kind) ==> final(self).spec_pending()
                == old(self).spec_pending() && (if matched && old(self).spec_config().want_size
                && entry.kind == FileKind::Regular {
                final(self).spec_batch() == old(self).spec_batch().push(
                    (StatEntry { ino: spec_ino_or_zero(entry.ino), path: entry.path }),
                )
            } else {
                final(self).spec_batch() == old(self).spec_batch()
            }),
    {
        let DirEntryRef { path, kind, ino } = entry;
        let matched = match self.config.filter {
            Some(f) => f.is(kind),
            None => kind == FileKind::Regular,
        };
        if matched {
            self.files = self.files + 1;
        }
        if kind == FileKind::Directory {
            proof {
                crate::pending::lemma_enq_contents(
                    self.pending@,
                    path@,
                    spec_dir_key(self.config.spec_effective_order(), ino, located),
                );
            }
            let key = match self.config.effective_order() {
                Order::Content => located,
                Order::Inode => ino,
                Order::Dentries => None,
            };
            self.pending.enqueue(path, key);
        } else if matched && self.config.want_size && kind == FileKind::Regular {
            let i = match ino {
                Some(i) => i,
                None => 0,
            };
            self.batcher.offer(i, path);
        }
        matched
    }

    /// True when the batch is due to be flushed: it has reached its
    /// threshold, or the pending set is empty and no more files will come.
    pub fn should_flush(&self) -> (r: bool)
        requires
            self.wf(),
        ensures
            r == (self.spec_batch().len() >= self.spec_batch_threshold()
                || self.spec_pending().is_empty_view()),
    {
        let is_final = self.pending.is_empty();
        self.batcher.should_flush(is_final)
    }

    /// Empties the batch and returns its entries sorted ascending by inode
    /// number, for the caller to stat in that order.
    pub fn take_batch(&mut self) -> (r: Vec<StatEntry>)
        requires
            old(self).wf(),
        ensures
            final(self).wf(),
            final(self).spec_config() == old(self).spec_config(),
            final(self).spec_pending() == old(self).spec_pending(),
            final(self).spec_files() == old(self).spec_files(),
            final(self).spec_bytes() == old(self).spec_bytes(),
            final(self).spec_batch() == Seq::<StatEntry>::empty(),
            final(self).spec_batch_threshold() == old(self).spec_batch_threshold(),
            crate::batch::sorted_by_ino(r@),
            r@.to_multiset() == old(self).spec_batch().to_multiset(),
    {
        self.batcher.take_batch()
    }

    /// Adds one flush's byte sum to the running total.
    pub fn add_bytes(&mut self, n: u64)
        requires
            old(self).wf(),
            old(self).spec_bytes() + n <= u64::MAX,
        ensures
            final(self).wf(),
            final(self).spec_config() == old(self).spec_config(),
            final(self).spec_pending() == old(self).spec_pending(),
            final(self).spec_batch() == old(self).spec_batch(),
            final(self).spec_batch_threshold() == old(self).spec_batch_threshold(),
            final(self).spec_files() == old(self).spec_files(),
            final(self).spec_bytes() == old(self).spec_bytes() + n,
    {
        self.bytes = self.bytes + n;
    }

    /// True when traversal is complete: nothing pending and nothing left to
    /// flush.
    pub fn is_done(&self) -> (r: bool)
        requires
            self.wf(),
        ensures
            r == (self.spec_pending().is_empty_view() && self.spec_batch().len() == 0),
    {
        self.pending.is_empty() && self.batcher.len() == 0
    }

    /// The running count of matched entries.
    pub fn file_count(&self) -> (r: u64)
        ensures
            r == self.spec_files(),
    {
        self.files
    }

    /// The running total of apparent byte lengths.
    pub fn byte_total(&self) -> (r: u64)
        ensures
            r == self.spec_bytes(),
    {
        self.bytes
    }

    /// Whether size accumulation was requested.
    pub fn want_size(&self) -> (r: bool)
        ensures
            r == self.spec_config().want_size,
    {
        self.config.want_size
    }

    /// Whether matched paths are surfaced for listing.
    pub fn wants_list(&self) -> (r: bool)
        ensures
            r == self.spec_config().list,
    {
        self.config.list
    }

    /// The ordering policy in force for this scan.
    pub fn order_in_force(&self) -> (r: Order)
        ensures
            r == self.spec_config().spec_effective_order(),
    {
        self.config.effective_order()
    }
}

/// Sums byte lengths, reporting overflow instead of wrapping.
pub fn sum_lengths(sizes: &Vec<u64>) -> (r: Option<u64>)
    ensures
        (match r {
            Some(s) => s == spec_sum(sizes@) && spec_sum(sizes@) <= u64::MAX,
            None => spec_sum(sizes@) > u64::MAX,
        }),
{
    let mut acc: u64 = 0;
    let mut i: usize = 0;
    while i < sizes.len()
        invariant
            0 <= i <= sizes@.len(),
            acc == spec_sum(sizes@.take(i as int)),
        decreases sizes@.len() - i,
    {
        proof {
            assert(sizes@.take(i + 1).drop_last() =~= sizes@.take(i as int));
            assert(sizes@.take(i + 1).last() == sizes@[i as int]);
        }
        match acc.checked_add(sizes[i]) {
            Some(s) => {
                acc = s;
            },
            None => {
                proof {
                    lemma_sum_prefix_le(sizes@, i + 1);
                }
                return None;
            },
        }
        i = i + 1;
    }
    proof {
        assert(sizes@.take(sizes@.len() as int) =~= sizes@);
    }
    Some(acc)
}

/// The sum of a prefix is at most the sum of the whole sequence.
proof fn lemma_sum_prefix_le(s: Seq<u64>, i: int)
    requires
        0 <= i <= s.len(),
    ensures
        spec_sum(s.take(i)) <= spec_sum(s),
    decreases s.len() - i,
{
    if i < s.len() {
        lemma_sum_prefix_le(s, i + 1);
        assert(s.take(i + 1).drop_last() =~= s.take(i));
        assert(spec_sum(s.take(i + 1)) == spec_sum(s.take(i)) + s[i]);
    } else {
        assert(s.take(i) =~= s);
    }
}

/// The type filter never affects directory descent: under any two
/// configurations that agree on everything but the filter, handling the
/// same entry leaves the pending set in the same state.
pub proof fn lemma_filter_independent_descent(
    v: PendingView,
    kind: FileKind,
    path: Seq<char>,
    ino: Option<u64>,
    located: Option<u64>,
    c1: ScanConfig,
    c2: ScanConfig,
)
    requires
        c1.order == c2.order,
        c1.want_size == c2.want_size,
    ensures
        spec_pending_after(v, kind, path, ino, located, c1) == spec_pending_after(
            v,
            kind,
            path,
            ino,
            located,
            c2,
        ),
{
}

} // verus!
