//! The CSCAN work queue of directories awaiting a listing pass.
//!
//! Directories with a known physical key live in an ordered tier (keys
//! unique; a collision evicts the previously stored path into the FIFO tier);
//! directories without one live in a FIFO tier that is always drained first.
//! A cursor realizes a one-directional circular sweep over the ordered tier:
//! the smallest key at or above the cursor is serviced next, and when none
//! remains the cursor wraps to zero and the caller retries.

use vstd::prelude::*;
use vstd::multiset::Multiset;

verus! {

/// Abstract state of a pending set: the ordered tier as parallel sequences
/// of keys and paths, the FIFO tier, and the sweep cursor.
pub ghost struct PendingView {
    pub keys: Seq<u64>,
    pub paths: Seq<Seq<char>>,
    pub fifo: Seq<Seq<char>>,
    pub cursor: u64,
}

/// The smallest key in `s` that is at least `c`, if any.
pub open spec fn min_key_ge(s: Seq<u64>, c: u64) -> Option<u64>
    decreases s.len(),
{
    if s.len() == 0 {
        None
    } else {
        let rest = min_key_ge(s.drop_first(), c);
        let k = s.first();
        if k >= c {
            match rest {
                None => Some(k),
                Some(m) => if k <= m {
                    Some(k)
                } else {
                    Some(m)
                },
            }
        } else {
            rest
        }
    }
}

impl PendingView {
    /// The ordered tier's keys are unique and pair off with its paths.
    pub open spec fn wf(self) -> bool {
        &&& self.keys.len() == self.paths.len()
        &&& forall|a: int, b: int| #![trigger self.keys[a], self.keys[b]]
            0 <= a < b < self.keys.len() ==> self.keys[a] != self.keys[b]
    }

    /// Every path currently held, over both tiers, with multiplicity.
    pub open spec fn contents(self) -> Multiset<Seq<char>> {
        self.paths.to_multiset().add(self.fifo.to_multiset())
    }

    /// The position of key `k` in the ordered tier.
    pub open spec fn key_index(self, k: u64) -> int {
        choose|j: int| 0 <= j < self.keys.len() && self.keys[j] == k
    }

    /// The path stored at key `k` in the ordered tier.
    pub open spec fn lookup(self, k: u64) -> Seq<char> {
        self.paths[self.key_index(k)]
    }

    /// The enqueue transition. A keyed path takes the slot at its key,
    /// evicting the previously stored path to the back of the FIFO tier;
    /// an unkeyed path is appended to the back of the FIFO tier.
    pub open spec fn enq(self, path: Seq<char>, key: Option<u64>) -> PendingView {
        match key {
            None => PendingView { fifo: self.fifo.push(path), ..self },
            Some(k) => if self.keys.contains(k) {
                let j = self.key_index(k);
                PendingView {
                    paths: self.paths.update(j, path),
                    fifo: self.fifo.push(self.paths[j]),
                    ..self
                }
            } else {
                PendingView { keys: self.keys.push(k), paths: self.paths.push(path), ..self }
            },
        }
    }

    /// The dequeue transition: the FIFO tier is drained first; then the
    /// ordered tier is swept upward from the cursor; when the sweep has
    /// passed the topmost key the cursor wraps to zero and no entry is
    /// returned this round.
    pub open spec fn deq(self) -> (PendingView, Option<Seq<char>>) {
        if self.fifo.len() > 0 {
            (PendingView { fifo: self.fifo.drop_first(), ..self }, Some(self.fifo[0]))
        } else {
            match min_key_ge(self.keys, self.cursor) {
                Some(m) => {
                    let j = self.key_index(m);
                    (
                        PendingView {
                            keys: self.keys.remove(j),
                            paths: self.paths.remove(j),
                            cursor: m,
                            ..self
                        },
                        Some(self.paths[j]),
                    )
                },
                None => (PendingView { cursor: 0, ..self }, None),
            }
        }
    }

    /// Both tiers are empty.
    pub open spec fn is_empty_view(self) -> bool {
        self.keys.len() == 0 && self.fifo.len() == 0
    }
}

/// What `min_key_ge` returns: nothing when no key reaches `c`, else the
/// least key at or above `c`, and that key is present.
pub proof fn lemma_min_key_ge_props(s: Seq<u64>, c: u64)
    ensures
        match min_key_ge(s, c) {
            None => forall|i: int| 0 <= i < s.len() ==> #[trigger] s[i] < c,
            Some(m) => s.contains(m) && m >= c && forall|i: int|
                0 <= i < s.len() && #[trigger] s[i] >= c ==> m <= s[i],
        },
    decreases s.len(),
{
    if s.len() > 0 {
        lemma_min_key_ge_props(s.drop_first(), c);
        assert forall|i: int| 1 <= i < s.len() implies s.drop_first()[i - 1] == s[i] by {}
        match min_key_ge(s.drop_first(), c) {
            None => {},
            Some(m) => {
                assert(s.drop_first().contains(m));
                let w = choose|w: int| 0 <= w < s.drop_first().len() && s.drop_first()[w] == m;
                assert(s[w + 1] == m);
            },
        }
    }
}

/// The CSCAN work queue: an ordered tier of uniquely keyed directory paths,
/// a FIFO overflow tier, and the sweep cursor.
pub struct PendingSet {
    keys: Vec<u64>,
    paths: Vec<String>,
    fifo: Vec<String>,
    cursor: u64,
}

impl View for PendingSet {
    type V = PendingView;

    closed spec fn view(&self) -> PendingView {
        PendingView {
            keys: self.keys@,
            paths: self.paths.deep_view(),
            fifo: self.fifo.deep_view(),
            cursor: self.cursor,
        }
    }
}

impl PendingSet {
    /// An empty pending set with the cursor at the bottom of the range.
    pub fn new() -> (r: PendingSet)
        ensures
            r@.wf(),
            r@.keys == Seq::<u64>::empty(),
            r@.paths == Seq::<Seq<char>>::empty(),
            r@.fifo == Seq::<Seq<char>>::empty(),
            r@.cursor == 0,
            r@.contents() == Multiset::<Seq<char>>::empty(),
    {
        let r = PendingSet { keys: Vec::new(), paths: Vec::new(), fifo: Vec::new(), cursor: 0 };
        proof {
            assert(r@.keys =~= Seq::<u64>::empty());
            assert(r@.paths =~= Seq::<Seq<char>>::empty());
            assert(r@.fifo =~= Seq::<Seq<char>>::empty());
            r@.paths.to_multiset_ensures();
            r@.fifo.to_multiset_ensures();
            assert(r@.contents() =~= Multiset::<Seq<char>>::empty());
        }
        r
    }

    /// True iff both tiers are empty, i.e. nothing is pending.
    pub fn is_empty(&self) -> (r: bool)
        requires
            self@.wf(),
        ensures
            r == self@.is_empty_view(),
            r == (self@.contents().len() == 0),
    {
        proof {
            broadcast use vstd::multiset::group_multiset_axioms;

            self@.paths.to_multiset_ensures();
            self@.fifo.to_multiset_ensures();
            assert(self@.contents().len() == self@.paths.to_multiset().len()
                + self@.fifo.to_multiset().len());
        }
        self.keys.len() == 0 && self.fifo.len() == 0
    }

    /// Places `path` into the set: at `key` in the ordered tier when a key
    /// is given (the previously stored path at that key, if any, is evicted
    /// to the back of the FIFO tier), else at the back of the FIFO tier.
    pub fn enqueue(&mut self, path: String, key: Option<u64>)
        requires
            old(self)@.wf(),
        ensures
            final(self)@.wf(),
            final(self)@ == old(self)@.enq(path@, key),
            final(self)@.contents() == old(self)@.contents().insert(path@),
    {
        proof {
            lemma_enq_contents(old(self)@, path@, key);
        }
        match key {
            None => {
                self.fifo.push(path);
                proof {
                    assert(self@.fifo =~= old(self)@.fifo.push(path@));
                    assert(self@ == old(self)@.enq(path@, key));
                }
            },
            Some(k) => {
                let n = self.keys.len();
                let mut j: usize = 0;
                let mut found = false;
                while j < n && !found
                    invariant
                        n == self.keys@.len(),
                        0 <= j <= n,
                        *self == *old(self),
                        found ==> j < n && self.keys@[j as int] == k,
                        !found ==> forall|t: int| 0 <= t < j ==> self.keys@[t] != k,
                    decreases n - j + (if found { 0int } else { 1int }),
                {
                    if self.keys[j] == k {
                        found = true;
                    } else {
                        j = j + 1;
                    }
                }
                if found {
                    proof {
                        assert(old(self)@.keys.contains(k)) by {
                            assert(old(self)@.keys[j as int] == k);
                        }
                        assert(old(self)@.key_index(k) == j as int) by {
                            let w = old(self)@.key_index(k);
                            assert(0 <= w < old(self)@.keys.len() && old(self)@.keys[w] == k);
                        }
                    }
                    let evicted = self.paths.remove(j);
                    self.paths.insert(j, path);
                    self.fifo.push(evicted);
                    proof {
                        assert(self@.paths =~= old(self)@.paths.update(j as int, path@));
                        assert(self@.fifo =~= old(self)@.fifo.push(old(self)@.paths[j as int]));
                        assert(self@ == old(self)@.enq(path@, key));
                    }
                } else {
                    proof {
                        assert(!old(self)@.keys.contains(k)) by {
                            if old(self)@.keys.contains(k) {
                                let w = choose|w: int|
                                    0 <= w < old(self)@.keys.len() && old(self)@.keys[w] == k;
                                assert(old(self)@.keys[w] == k);
                            }
                        }
                    }
                    self.keys.push(k);
                    self.paths.push(path);
                    proof {
                        assert(self@.keys =~= old(self)@.keys.push(k));
                        assert(self@.paths =~= old(self)@.paths.push(path@));
                        assert(self@ == old(self)@.enq(path@, key));
                    }
                }
            },
        }
    }

    /// Removes and returns the next directory to service: the front of the
    /// FIFO tier while it is non-empty, else the ordered-tier entry at the
    /// smallest key at or above the cursor. Returns nothing when the sweep
    /// wrapped (cursor reset to zero; retry) or the set is empty.
    pub fn dequeue(&mut self) -> (r: Option<String>)
        requires
            old(self)@.wf(),
        ensures
            final(self)@.wf(),
            final(self)@ == old(self)@.deq().0,
            r.deep_view() == old(self)@.deq().1,
            (match r {
                Some(p) => old(self)@.contents().count(p@) >= 1 && final(self)@.contents()
                    == old(self)@.contents().remove(p@),
                None => final(self)@.contents() == old(self)@.contents(),
            }),
    {
        proof {
            lemma_deq_contents(old(self)@);
        }
        if self.fifo.len() > 0 {
            let p = self.fifo.remove(0);
            proof {
                assert(self@.fifo =~= old(self)@.fifo.drop_first());
                assert(self@ == old(self)@.deq().0);
            }
            return Some(p);
        }
        let n = self.keys.len();
        let mut found = false;
        let mut best_key: u64 = 0;
        let mut best_idx: usize = 0;
        let mut i: usize = 0;
        while i < n
            invariant
                n == self.keys@.len(),
                0 <= i <= n,
                *self == *old(self),
                found ==> best_idx < i && self.keys@[best_idx as int] == best_key && best_key
                    >= self.cursor,
                forall|t: int| 0 <= t < i && #[trigger] self.keys@[t] >= self.cursor ==> found
                    && best_key <= self.keys@[t],
            decreases n - i,
        {
            let k = self.keys[i];
            if k >= self.cursor && (!found || k < best_key) {
                found = true;
                best_key = k;
                best_idx = i;
            }
            i = i + 1;
        }
        proof {
            lemma_min_key_ge_props(old(self)@.keys, old(self)@.cursor);
            if found {
                assert(old(self)@.keys.contains(best_key)) by {
                    assert(old(self)@.keys[best_idx as int] == best_key);
                }
                let m = min_key_ge(old(self)@.keys, old(self)@.cursor);
                assert(m is Some);
                let mv = m.unwrap();
                assert(mv <= best_key);
                let w = choose|w: int|
                    0 <= w < old(self)@.keys.len() && old(self)@.keys[w] == mv;
                assert(best_key <= old(self)@.keys[w]);
                assert(mv == best_key);
                assert(old(self)@.key_index(best_key) == best_idx as int) by {
                    let u = old(self)@.key_index(best_key);
                    assert(0 <= u < old(self)@.keys.len() && old(self)@.keys[u] == best_key);
                }
            } else {
                assert(min_key_ge(old(self)@.keys, old(self)@.cursor) is None) by {
                    match min_key_ge(old(self)@.keys, old(self)@.cursor) {
                        None => {},
                        Some(m) => {
                            let w = choose|w: int|
                                0 <= w < old(self)@.keys.len() && old(self)@.keys[w] == m;
                            assert(old(self)@.keys[w] >= old(self)@.cursor);
                        },
                    }
                }
            }
        }
        if found {
            self.cursor = best_key;
            self.keys.remove(best_idx);
            let p = self.paths.remove(best_idx);
            proof {
                assert(self@.keys =~= old(self)@.keys.remove(best_idx as int));
                assert(self@.paths =~= old(self)@.paths.remove(best_idx as int));
                assert(self@ == old(self)@.deq().0);
            }
            Some(p)
        } else {
            self.cursor = 0;
            proof {
                assert(self@ == old(self)@.deq().0);
            }
            None
        }
    }
}

/// Enqueuing adds exactly the given path to the held contents, whichever
/// tier it or an evicted path lands in, and keeps the set well formed.
pub proof fn lemma_enq_contents(v: PendingView, path: Seq<char>, key: Option<u64>)
    requires
        v.wf(),
    ensures
        v.enq(path, key).wf(),
        v.enq(path, key).contents() == v.contents().insert(path),
        v.enq(path, key).cursor == v.cursor,
    {
    broadcast use vstd::seq_lib::group_to_multiset_ensures;
    broadcast use vstd::multiset::group_multiset_axioms;

    let r = v.enq(path, key);
    match key {
        None => {
            assert(r.contents() =~= v.contents().insert(path));
        },
        Some(k) => {
            if v.keys.contains(k) {
                let j = v.key_index(k);
                assert(0 <= j < v.keys.len() && v.keys[j] == k);
                let pj = v.paths[j];
                vstd::seq_lib::to_multiset_update(v.paths, j, path);
                assert(v.paths.contains(pj));
                vstd::seq_lib::to_multiset_contains(v.paths, pj);
                assert(v.paths.to_multiset().count(pj) >= 1);
                assert(r.contents() =~= v.contents().insert(path));
            } else {
                assert(forall|a: int, b: int| #![trigger r.keys[a], r.keys[b]]
                    0 <= a < b < r.keys.len() ==> r.keys[a] != r.keys[b]) by {
                    assert forall|a: int, b: int| 0 <= a < b < r.keys.len() implies r.keys[a]
                        != r.keys[b] by {
                        if b < v.keys.len() {
                        } else {
                            assert(r.keys[b] == k);
                            assert(r.keys[a] == v.keys[a]);
                            assert(!v.keys.contains(k));
                        }
                    }
                }
                assert(r.contents() =~= v.contents().insert(path));
            }
        },
    }
}

/// Dequeuing removes exactly the returned path from the held contents, or
/// nothing when the sweep wraps, and keeps the set well formed.
pub proof fn lemma_deq_contents(v: PendingView)
    requires
        v.wf(),
    ensures
        v.deq().0.wf(),
        (match v.deq().1 {
            Some(p) => v.contents().count(p) >= 1 && v.deq().0.contents() == v.contents().remove(
                p,
            ),
            None => v.deq().0.contents() == v.contents(),
        }),
    {
    broadcast use vstd::seq_lib::group_to_multiset_ensures;
    broadcast use vstd::multiset::group_multiset_axioms;

    let (r, out) = v.deq();
    if v.fifo.len() > 0 {
        let p = v.fifo[0];
        assert(v.fifo.drop_first() =~= v.fifo.remove(0));
        vstd::seq_lib::to_multiset_remove(v.fifo, 0);
        assert(v.fifo.contains(p));
        vstd::seq_lib::to_multiset_contains(v.fifo, p);
        assert(r.contents() =~= v.contents().remove(p));
    } else {
        match min_key_ge(v.keys, v.cursor) {
            Some(m) => {
                lemma_min_key_ge_props(v.keys, v.cursor);
                let j = v.key_index(m);
                assert(0 <= j < v.keys.len() && v.keys[j] == m);
                let p = v.paths[j];
                vstd::seq_lib::to_multiset_remove(v.paths, j);
                assert(v.paths.contains(p));
                vstd::seq_lib::to_multiset_contains(v.paths, p);
                assert(forall|a: int, b: int| #![trigger r.keys[a], r.keys[b]]
                    0 <= a < b < r.keys.len() ==> r.keys[a] != r.keys[b]) by {
                    assert forall|a: int, b: int| 0 <= a < b < r.keys.len() implies r.keys[a]
                        != r.keys[b] by {
                        let a0 = if a < j {
                            a
                        } else {
                            a + 1
                        };
                        let b0 = if b < j {
                            b
                        } else {
                            b + 1
                        };
                        assert(r.keys[a] == v.keys[a0]);
                        assert(r.keys[b] == v.keys[b0]);
                    }
                }
                assert(r.contents() =~= v.contents().remove(p));
            },
            None => {
                assert(r.contents() =~= v.contents());
            },
        }
    }
}

/// One dequeue, retried once across a sweep wraparound, as the traversal
/// engine performs it: on a well-formed non-empty set this yields a path.
pub open spec fn deq_forced(v: PendingView) -> (PendingView, Option<Seq<char>>) {
    let (v1, r) = v.deq();
    if r is Some {
        (v1, r)
    } else {
        v1.deq()
    }
}

/// On a well-formed non-empty pending set, a dequeue retried across the
/// wrap always yields a path that was held, and removes exactly it.
pub proof fn lemma_deq_forced_some(v: PendingView)
    requires
        v.wf(),
        !v.is_empty_view(),
    ensures
        deq_forced(v).1 is Some,
        deq_forced(v).0.wf(),
        v.contents().count(deq_forced(v).1.unwrap()) >= 1,
        deq_forced(v).0.contents() == v.contents().remove(deq_forced(v).1.unwrap()),
{
    lemma_deq_contents(v);
    if v.fifo.len() == 0 && min_key_ge(v.keys, v.cursor) is None {
        let v1 = v.deq().0;
        assert(v1.keys == v.keys && v1.paths == v.paths && v1.fifo == v.fifo);
        lemma_min_key_ge_props(v1.keys, 0u64);
        if min_key_ge(v1.keys, 0u64) is None {
            assert(v1.keys[0] < 0);
        }
        lemma_deq_contents(v1);
        assert(v1.contents() == v.contents());
    }
}

/// The paths produced by repeatedly dequeuing (wrap retries included), for
/// at most `n` yields.
pub open spec fn drain_upto(v: PendingView, n: nat) -> Seq<Seq<char>>
    decreases n,
{
    if n == 0 || v.is_empty_view() {
        Seq::<Seq<char>>::empty()
    } else {
        let (v1, r) = deq_forced(v);
        match r {
            Some(p) => seq![p] + drain_upto(v1, (n - 1) as nat),
            None => Seq::<Seq<char>>::empty(),
        }
    }
}

/// Exactly-once traversal at the queue: draining a well-formed pending set
/// to the end yields every held path exactly once -- the multiset of
/// dequeued paths is the multiset of held contents, with no duplication and
/// no loss, whatever mix of tiers, collisions and wraps produced it.
pub proof fn lemma_drain_exactly_once(v: PendingView, n: nat)
    requires
        v.wf(),
        n == v.contents().len(),
    ensures
        drain_upto(v, n).to_multiset() == v.contents(),
    decreases n,
{
    broadcast use vstd::seq_lib::group_to_multiset_ensures;
    broadcast use vstd::multiset::group_multiset_axioms;

    v.paths.to_multiset_ensures();
    v.fifo.to_multiset_ensures();
    if v.is_empty_view() {
        assert(v.contents().len() == 0);
        assert(drain_upto(v, n) == Seq::<Seq<char>>::empty());
        Seq::<Seq<char>>::empty().to_multiset_ensures();
        assert(drain_upto(v, n).to_multiset() =~= v.contents());
    } else {
        assert(v.keys.len() > 0 || v.fifo.len() > 0);
        assert(v.contents().len() > 0);
        assert(n > 0);
        lemma_deq_forced_some(v);
        let (v1, r) = deq_forced(v);
        let p = r.unwrap();
        assert(Multiset::singleton(p).subset_of(v.contents())) by {
            assert forall|x: Seq<char>|
                Multiset::singleton(p).count(x) <= v.contents().count(x) by {
                if x == p {
                } else {
                    assert(Multiset::singleton(p).count(x) == 0);
                }
            }
        }
        assert(v1.contents().len() == n - 1);
        lemma_drain_exactly_once(v1, (n - 1) as nat);
        assert(drain_upto(v, n) == seq![p] + drain_upto(v1, (n - 1) as nat));
        vstd::seq_lib::lemma_multiset_commutative(seq![p], drain_upto(v1, (n - 1) as nat));
        assert(seq![p] =~= Seq::<Seq<char>>::empty().push(p));
        Seq::<Seq<char>>::empty().to_multiset_ensures();
        assert(seq![p].to_multiset() =~= Multiset::<Seq<char>>::empty().insert(p));
        assert(drain_upto(v, n).to_multiset() =~= v.contents());
    }
}

/// The FIFO tier is serviced first: while it is non-empty, a dequeue yields
/// its front entry and never touches the ordered tier.
pub proof fn lemma_fifo_precedence(v: PendingView)
    requires
        v.wf(),
        v.fifo.len() > 0,
    ensures
        v.deq().1 == Some(v.fifo[0]),
        v.deq().0.keys == v.keys,
        v.deq().0.paths == v.paths,
        v.deq().0.fifo == v.fifo.drop_first(),
        v.deq().0.cursor == v.cursor,
{
}

/// Collision handling: enqueuing two paths at the same physical key leaves
/// both held -- the later one in the ordered-tier slot, the earlier one at
/// the back of the FIFO tier -- so each is still dequeued exactly once.
pub proof fn lemma_collision(v: PendingView, p1: Seq<char>, p2: Seq<char>, k: u64)
    requires
        v.wf(),
    ensures
        v.enq(p1, Some(k)).enq(p2, Some(k)).wf(),
        v.enq(p1, Some(k)).enq(p2, Some(k)).contents() == v.contents().insert(p1).insert(p2),
        v.enq(p1, Some(k)).enq(p2, Some(k)).keys.contains(k),
        v.enq(p1, Some(k)).enq(p2, Some(k)).lookup(k) == p2,
        v.enq(p1, Some(k)).enq(p2, Some(k)).fifo.len() > 0,
        v.enq(p1, Some(k)).enq(p2, Some(k)).fifo.last() == p1,
{
    lemma_enq_contents(v, p1, Some(k));
    let v1 = v.enq(p1, Some(k));
    lemma_enq_contents(v1, p2, Some(k));
    let v2 = v1.enq(p2, Some(k));
    if v.keys.contains(k) {
        let j = v.key_index(k);
        assert(0 <= j < v.keys.len() && v.keys[j] == k);
        assert(v1.keys == v.keys);
        assert(v1.paths == v.paths.update(j, p1));
        let j1 = v1.key_index(k);
        assert(0 <= j1 < v1.keys.len() && v1.keys[j1] == k);
        assert(j1 == j);
        assert(v2.paths == v1.paths.update(j, p2));
        let j2 = v2.key_index(k);
        assert(0 <= j2 < v2.keys.len() && v2.keys[j2] == k);
        assert(j2 == j);
        assert(v2.lookup(k) == p2);
        assert(v2.fifo == v1.fifo.push(v1.paths[j]));
        assert(v1.paths[j] == p1);
    } else {
        assert(v1.keys == v.keys.push(k));
        assert(v1.paths == v.paths.push(p1));
        assert(v1.keys.contains(k)) by {
            assert(v1.keys[v.keys.len() as int] == k);
        }
        let j1 = v1.key_index(k);
        assert(0 <= j1 < v1.keys.len() && v1.keys[j1] == k);
        assert(j1 == v.keys.len()) by {
            if j1 < v.keys.len() {
                assert(v.keys[j1] == k);
                assert(v.keys.contains(k));
            }
        }
        assert(v1.paths[j1] == p1);
        assert(v2.paths == v1.paths.update(j1, p2));
        let j2 = v2.key_index(k);
        assert(0 <= j2 < v2.keys.len() && v2.keys[j2] == k);
        assert(j2 == j1);
        assert(v2.lookup(k) == p2);
        assert(v2.fifo == v1.fifo.push(p1));
    }
}

/// Wraparound: when the sweep has passed the topmost key of a non-empty
/// ordered tier, the dequeue signals a wrap (no entry, cursor reset to
/// zero, nothing lost), and the retried dequeue yields the entry at the
/// smallest key present -- never a false "empty".
pub proof fn lemma_wraparound(v: PendingView)
    requires
        v.wf(),
        v.fifo.len() == 0,
        v.keys.len() > 0,
        min_key_ge(v.keys, v.cursor) is None,
    ensures
        v.deq().1 is None,
        v.deq().0.cursor == 0,
        v.deq().0.contents() == v.contents(),
        min_key_ge(v.keys, 0) is Some,
        deq_forced(v).1 == Some(v.lookup(min_key_ge(v.keys, 0).unwrap())),
        forall|i: int| 0 <= i < v.keys.len() ==> min_key_ge(v.keys, 0).unwrap()
            <= #[trigger] v.keys[i],
{
    lemma_deq_contents(v);
    let v1 = v.deq().0;
    assert(v1.keys == v.keys && v1.paths == v.paths && v1.fifo == v.fifo && v1.cursor == 0);
    lemma_min_key_ge_props(v.keys, 0u64);
    if min_key_ge(v.keys, 0u64) is None {
        assert(v.keys[0] < 0);
    }
    let m = min_key_ge(v.keys, 0u64).unwrap();
    assert forall|i: int| 0 <= i < v.keys.len() implies m <= v.keys[i] by {
        assert(v.keys[i] >= 0);
    }
    assert(v1.deq().1 == Some(v1.paths[v1.key_index(m)]));
    assert(v1.key_index(m) == v.key_index(m));
    assert(deq_forced(v).1 == Some(v.lookup(m)));
}


/// The sweep is one-directional: an ordered-tier dequeue services the
/// smallest key at or above the cursor, moves the cursor up to it, and no
/// key below the cursor is serviced until the cursor itself wraps.
pub proof fn lemma_sweep_monotone(v: PendingView)
    requires
        v.wf(),
        v.fifo.len() == 0,
        min_key_ge(v.keys, v.cursor) is Some,
    ensures
        v.deq().0.cursor == min_key_ge(v.keys, v.cursor).unwrap(),
        min_key_ge(v.keys, v.cursor).unwrap() >= v.cursor,
        v.deq().1 == Some(v.lookup(min_key_ge(v.keys, v.cursor).unwrap())),
        forall|i: int| 0 <= i < v.keys.len() && #[trigger] v.keys[i] >= v.cursor
            ==> min_key_ge(v.keys, v.cursor).unwrap() <= v.keys[i],
{
    lemma_min_key_ge_props(v.keys, v.cursor);
}

} // verus!
