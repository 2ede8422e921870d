//! LRU-K replacement policy.
//!
//! The replacer tracks, per frame, the history of logical access timestamps
//! and a pin count. `evict` picks an unpinned victim: among frames with at
//! least `k` recorded accesses the one with the largest backward K-distance
//! (newest timestamp minus k-th-newest), and if no frame has `k` accesses yet,
//! the one with the earliest last access. Ties go to the lowest frame id.

use vstd::prelude::*;

verus! {

/// The kind of access being recorded; reserved for future policy tuning and
/// without effect on victim selection.
pub enum AccessType {
    Get,
    Scan,
}

/// Per-frame replacer bookkeeping: the frame id, its access timestamps in
/// increasing order, and its pin count.
pub struct LRUKNode {
    pub i: usize,
    pub history: Vec<u64>,
    pub pin: u64,
}

impl LRUKNode {
    /// Non-empty, strictly increasing access history.
    pub open spec fn wf(self) -> bool {
        &&& self.history@.len() >= 1
        &&& forall|a: int, b: int|
            0 <= a < b < self.history@.len() ==> #[trigger] self.history@[a]
                < #[trigger] self.history@[b]
    }

    /// `wf`, with every recorded timestamp below `ts`.
    pub open spec fn wf_below(self, ts: u64) -> bool {
        &&& self.wf()
        &&& forall|a: int| 0 <= a < self.history@.len() ==> #[trigger] self.history@[a] < ts
    }

    /// The backward K-distance: newest timestamp minus the k-th-newest, or
    /// `None` when fewer than `k` accesses are recorded.
    pub open spec fn spec_k_distance(self, k: int) -> Option<u64> {
        if self.history@.len() < k {
            None
        } else {
            Some((self.history@.last() - self.history@[self.history@.len() - k]) as u64)
        }
    }

    pub fn new(i: usize, ts: u64) -> (n: Self)
        ensures
            n.i == i,
            n.history@ =~= seq![ts],
            n.pin == 0,
    {
        let mut history: Vec<u64> = Vec::new();
        history.push(ts);
        Self { i, history, pin: 0 }
    }

    pub fn get_k_distance(&self, k: usize) -> (r: Option<u64>)
        requires
            self.wf(),
            k >= 1,
        ensures
            r == self.spec_k_distance(k as int),
    {
        let len = self.history.len();
        if len < k {
            return None;
        }

        let latest = self.history[len - 1];
        let kth = len - k;

        Some(latest - self.history[kth])
    }
}

/// The LRU-K replacer. Frame `i`'s bookkeeping, if any, lives at `nodes[i]`.
pub struct LRUKReplacer {
    pub nodes: Vec<Option<LRUKNode>>,
    pub current_ts: u64,
    pub k: usize,
}

impl LRUKReplacer {
    pub open spec fn wf(self) -> bool {
        &&& self.k >= 1
        &&& forall|i: int|
            0 <= i < self.nodes@.len() ==> match #[trigger] self.nodes@[i] {
                Some(n) => n.wf_below(self.current_ts) && n.i == i,
                None => true,
            }
    }

    /// The pin count the replacer holds for frame `i`; untracked frames count
    /// as unpinned.
    pub open spec fn pin_of(self, i: int) -> u64 {
        if 0 <= i < self.nodes@.len() && self.nodes@[i] is Some {
            self.nodes@[i].unwrap().pin
        } else {
            0
        }
    }

    /// Frame `i` is tracked and unpinned, so eviction may select it.
    pub open spec fn is_evictable(self, i: int) -> bool {
        &&& 0 <= i < self.nodes@.len()
        &&& self.nodes@[i] is Some
        &&& self.nodes@[i].unwrap().pin == 0
    }

    /// An evictable frame with at least `k` recorded accesses.
    pub open spec fn has_full_history(self, i: int) -> bool {
        &&& self.is_evictable(i)
        &&& self.nodes@[i].unwrap().history@.len() >= self.k
    }

    /// The K-distance of frame `i`; meaningful under `has_full_history(i)`.
    pub open spec fn k_distance_of(self, i: int) -> u64 {
        (self.nodes@[i].unwrap().history@.last()
            - self.nodes@[i].unwrap().history@[self.nodes@[i].unwrap().history@.len() - self.k]) as u64
    }

    /// The newest recorded timestamp of frame `i`; meaningful when tracked.
    pub open spec fn last_access_of(self, i: int) -> u64 {
        self.nodes@[i].unwrap().history@.last()
    }

    pub fn new(k: usize) -> (r: Self)
        requires
            k >= 1,
        ensures
            r.wf(),
            r.nodes@.len() == 0,
            r.current_ts == 0,
            r.k == k,
    {
        Self { nodes: Vec::new(), current_ts: 0, k }
    }

    /// Chooses a victim frame, or `None` when every tracked frame is pinned.
    /// A returned frame is always unpinned.
    pub fn evict(&mut self) -> (r: Option<usize>)
        requires
            old(self).wf(),
        ensures
            *final(self) == *old(self),
            match r {
                None => forall|i: int| !old(self).is_evictable(i),
                Some(f) => {
                    &&& old(self).is_evictable(f as int)
                    &&& if exists|i: int| old(self).has_full_history(i) {
                        &&& old(self).has_full_history(f as int)
                        &&& forall|i: int|
                            #[trigger] old(self).has_full_history(i) ==> old(self).k_distance_of(i)
                                < old(self).k_distance_of(f as int) || (old(self).k_distance_of(i)
                                == old(self).k_distance_of(f as int) && f as int <= i)
                    } else {
                        forall|i: int|
                            #[trigger] old(self).is_evictable(i) ==> old(self).last_access_of(
                                f as int,
                            ) < old(self).last_access_of(i) || (old(self).last_access_of(f as int)
                                == old(self).last_access_of(i) && f as int <= i)
                    }
                },
            },
    {
        let ghost snap = *self;
        let mut best_full: Option<(usize, u64)> = None;
        let mut best_short: Option<(usize, u64)> = None;

        let mut idx: usize = 0;
        while idx < self.nodes.len()
            invariant
                *self == snap,
                self.wf(),
                idx <= self.nodes@.len(),
                match best_full {
                    Some((f, d)) => {
                        &&& (f as int) < idx
                        &&& self.has_full_history(f as int)
                        &&& d == self.k_distance_of(f as int)
                        &&& forall|i: int|
                            i < idx && #[trigger] self.has_full_history(i) ==> self.k_distance_of(i)
                                < d || (self.k_distance_of(i) == d && f as int <= i)
                    },
                    None => forall|i: int| i < idx ==> !(#[trigger] self.has_full_history(i)),
                },
                match best_short {
                    Some((f, t)) => {
                        &&& (f as int) < idx
                        &&& self.is_evictable(f as int)
                        &&& !self.has_full_history(f as int)
                        &&& t == self.last_access_of(f as int)
                        &&& forall|i: int|
                            i < idx && #[trigger] self.is_evictable(i) && !self.has_full_history(i)
                                ==> t < self.last_access_of(i) || (t == self.last_access_of(i)
                                && f as int <= i)
                    },
                    None => forall|i: int|
                        i < idx ==> !(#[trigger] self.is_evictable(i)) || self.has_full_history(i),
                },
            decreases self.nodes@.len() - idx,
        {
            match &self.nodes[idx] {
                Some(node) => {
                    if node.pin == 0 {
                        match node.get_k_distance(self.k) {
                            Some(d) => {
                                let replace = match best_full {
                                    Some((_, bd)) => d > bd,
                                    None => true,
                                };
                                if replace {
                                    best_full = Some((idx, d));
                                }
                            },
                            None => {
                                let last = node.history[node.history.len() - 1];
                                let replace = match best_short {
                                    Some((_, bt)) => last < bt,
                                    None => true,
                                };
                                if replace {
                                    best_short = Some((idx, last));
                                }
                            },
                        }
                    }
                },
                None => {},
            }
            idx += 1;
        }

        match best_full {
            Some((f, _)) => Some(f),
            None => match best_short {
                Some((f, _)) => Some(f),
                None => None,
            },
        }
    }

    /// Appends the current logical timestamp to frame `i`'s history, creating
    /// the bookkeeping entry on first access, and advances the clock. Once the
    /// clock saturates, further accesses are no longer recorded, but a missing
    /// entry is still created so the frame stays tracked.
    pub fn record_access(&mut self, i: usize, _access_type: AccessType)
        requires
            old(self).wf(),
            i < usize::MAX,
        ensures
            final(self).wf(),
            final(self).k == old(self).k,
            final(self).nodes@.len() == if old(self).nodes@.len() >= i + 1 {
                old(self).nodes@.len() as int
            } else {
                i + 1
            },
            forall|j: int| #[trigger] final(self).pin_of(j) == old(self).pin_of(j),
            final(self).nodes@[i as int] is Some,
            final(self).nodes@[i as int].unwrap().i == i,
            final(self).nodes@[i as int].unwrap().pin == old(self).pin_of(i as int),
            final(self).current_ts == if old(self).current_ts < u64::MAX {
                (old(self).current_ts + 1) as u64
            } else {
                old(self).current_ts
            },
            final(self).nodes@[i as int].unwrap().history@ == if old(self).current_ts < u64::MAX {
                if i < old(self).nodes@.len() && old(self).nodes@[i as int] is Some {
                    old(self).nodes@[i as int].unwrap().history@.push(old(self).current_ts)
                } else {
                    seq![old(self).current_ts]
                }
            } else {
                if i < old(self).nodes@.len() && old(self).nodes@[i as int] is Some {
                    old(self).nodes@[i as int].unwrap().history@
                } else {
                    seq![(u64::MAX - 1) as u64]
                }
            },
            forall|j: int|
                0 <= j < final(self).nodes@.len() && j != i ==> #[trigger] final(self).nodes@[j]
                    == if j < old(self).nodes@.len() {
                    old(self).nodes@[j]
                } else {
                    None::<LRUKNode>
                },
    {
        while self.nodes.len() <= i
            invariant
                self.wf(),
                self.k == old(self).k,
                self.current_ts == old(self).current_ts,
                self.nodes@.len() >= old(self).nodes@.len(),
                old(self).nodes@.len() < i + 1 ==> self.nodes@.len() <= i + 1,
                old(self).nodes@.len() >= i + 1 ==> self.nodes@.len() == old(self).nodes@.len(),
                i < usize::MAX,
                forall|j: int|
                    0 <= j < self.nodes@.len() ==> #[trigger] self.nodes@[j] == if j < old(
                        self,
                    ).nodes@.len() {
                        old(self).nodes@[j]
                    } else {
                        None::<LRUKNode>
                    },
            decreases i + 1 - self.nodes@.len(),
        {
            self.nodes.push(None);
        }

        if self.current_ts == u64::MAX {
            // The logical clock has saturated; stop recording rather than
            // reuse a timestamp. If the entry is missing, still create it so
            // the frame is tracked.
            if self.nodes[i].is_none() {
                let mut n = LRUKNode::new(i, u64::MAX - 1);
                self.nodes.set(i, Some(n));
            }
            return ;
        }

        let ts = self.current_ts;
        match &mut self.nodes[i] {
            Some(node) => {
                node.history.push(ts);
            },
            None => {},
        }
        if self.nodes[i].is_none() {
            self.nodes.set(i, Some(LRUKNode::new(i, ts)));
        }
        self.current_ts = ts + 1;
    }

    /// Increments frame `i`'s pin count, excluding it from eviction.
    pub fn pin(&mut self, i: usize)
        requires
            old(self).wf(),
        ensures
            final(self).wf(),
            final(self).k == old(self).k,
            final(self).nodes@.len() == old(self).nodes@.len(),
            forall|j: int|
                j != i ==> #[trigger] final(self).pin_of(j) == old(self).pin_of(j),
            final(self).pin_of(i as int) == if old(self).pin_of(i as int) < u64::MAX
                && 0 <= i < old(self).nodes@.len() && old(self).nodes@[i as int] is Some {
                (old(self).pin_of(i as int) + 1) as u64
            } else {
                old(self).pin_of(i as int)
            },
            forall|j: int|
                0 <= j < final(self).nodes@.len() && final(self).nodes@[j] is Some
                    ==> #[trigger] final(self).nodes@[j].unwrap().history
                    == old(self).nodes@[j].unwrap().history && final(self).nodes@[j].unwrap().i
                    == old(self).nodes@[j].unwrap().i,
            forall|j: int|
                0 <= j < final(self).nodes@.len() ==> (#[trigger] final(self).nodes@[j] is Some
                    <==> old(self).nodes@[j] is Some),
    {
        if i < self.nodes.len() {
            match &mut self.nodes[i] {
                Some(node) => {
                    if node.pin < u64::MAX {
                        node.pin = node.pin + 1;
                    }
                },
                None => {},
            }
        }
    }

    /// Decrements frame `i`'s pin count; a frame already at zero stays there.
    pub fn unpin(&mut self, i: usize)
        requires
            old(self).wf(),
        ensures
            final(self).wf(),
            final(self).k == old(self).k,
            final(self).nodes@.len() == old(self).nodes@.len(),
            forall|j: int|
                j != i ==> #[trigger] final(self).pin_of(j) == old(self).pin_of(j),
            final(self).pin_of(i as int) == if old(self).pin_of(i as int) > 0 {
                (old(self).pin_of(i as int) - 1) as u64
            } else {
                0u64
            },
            forall|j: int|
                0 <= j < final(self).nodes@.len() && final(self).nodes@[j] is Some
                    ==> #[trigger] final(self).nodes@[j].unwrap().history
                    == old(self).nodes@[j].unwrap().history && final(self).nodes@[j].unwrap().i
                    == old(self).nodes@[j].unwrap().i,
            forall|j: int|
                0 <= j < final(self).nodes@.len() ==> (#[trigger] final(self).nodes@[j] is Some
                    <==> old(self).nodes@[j] is Some),
    {
        if i < self.nodes.len() {
            match &mut self.nodes[i] {
                Some(node) => {
                    if node.pin > 0 {
                        node.pin = node.pin - 1;
                    }
                },
                None => {},
            }
        }
    }

    /// Drops frame `i`'s history when the frame is disassociated from a page.
    /// Removal of a still-pinned frame is tolerated, as the pin accounting is
    /// rebuilt when the frame is reused.
    pub fn remove(&mut self, i: usize)
        requires
            old(self).wf(),
        ensures
            final(self).wf(),
            final(self).k == old(self).k,
            final(self).nodes@.len() == old(self).nodes@.len(),
            forall|j: int|
                0 <= j < final(self).nodes@.len() && j != i ==> #[trigger] final(self).nodes@[j]
                    == old(self).nodes@[j],
            0 <= i < final(self).nodes@.len() ==> final(self).nodes@[i as int] is None,
            final(self).pin_of(i as int) == 0,
            forall|j: int|
                j != i ==> #[trigger] final(self).pin_of(j) == old(self).pin_of(j),
    {
        if i < self.nodes.len() {
            self.nodes.set(i, None);
        }
    }
}

} // verus!

