//! Buffer cells: the storage backing one record type.
//!
//! Two disciplines exist.  A latest-value cell holds exactly one value; a
//! write overwrites any prior value and a read returns the most recent
//! value, or nothing while the cell is still empty (a caller would suspend
//! there).  A bounded ring cell holds up to its capacity in arrival order;
//! each subscriber keeps an independent read cursor, and a write that
//! finds the ring full drops the oldest entry rather than blocking the
//! writer — a lagging subscriber skips to the oldest surviving entry.
//!
//! Monitors subscribe to a change stream: a latest-value subscription
//! observes the next update, never the value already stored.  Capacity and
//! subscriber limits are fixed at creation and never resized.

use vstd::prelude::*;

use crate::errors::SubscriptionError;

verus! {

/// The abstract state of a latest-value cell: the stored value, one
/// pending-update flag per subscriber, and the subscriber limit.
pub ghost struct LatestModel<T> {
    pub value: Option<T>,
    pub pending: Seq<bool>,
    pub max_subscribers: nat,
}

/// What one write does to a latest-value cell: the value is replaced —
/// overwritten, not merged — and every subscriber sees one pending update.
pub open spec fn latest_write<T>(m: LatestModel<T>, v: T) -> LatestModel<T> {
    LatestModel {
        value: Some(v),
        pending: Seq::new(m.pending.len(), |i: int| true),
        max_subscribers: m.max_subscribers,
    }
}

/// A sequence of writes applied in order.
pub open spec fn latest_write_all<T>(m: LatestModel<T>, vs: Seq<T>) -> LatestModel<T>
    decreases vs.len(),
{
    if vs.len() == 0 {
        m
    } else {
        latest_write(latest_write_all(m, vs.drop_last()), vs.last())
    }
}

/// Law: after any sequence of writes ending in `vn`, a read returns `vn`
/// exactly.
pub proof fn lemma_latest_overwrite<T>(m: LatestModel<T>, vs: Seq<T>)
    requires
        vs.len() > 0,
    ensures
        latest_write_all(m, vs).value == Some(vs.last()),
{
}

/// A single-value cell with overwrite semantics and a change-stream
/// subscription for monitors.
pub struct LatestCell<T> {
    value: Option<T>,
    pending: Vec<bool>,
    max_subscribers: usize,
}

impl<T> View for LatestCell<T> {
    type V = LatestModel<T>;

    closed spec fn view(&self) -> LatestModel<T> {
        LatestModel {
            value: self.value,
            pending: self.pending@,
            max_subscribers: self.max_subscribers as nat,
        }
    }
}

impl<T> LatestCell<T> {
    /// Create an empty cell admitting at most `max_subscribers` monitors.
    pub fn new(max_subscribers: usize) -> (r: LatestCell<T>)
        ensures
            r@.value is None,
            r@.pending == Seq::<bool>::empty(),
            r@.max_subscribers == max_subscribers as nat,
    {
        LatestCell { value: None, pending: Vec::new(), max_subscribers }
    }

    /// Overwrite the stored value; the writer never blocks.  Every
    /// subscriber is owed exactly one update for it.
    pub fn write(&mut self, v: T)
        ensures
            final(self)@ == latest_write(old(self)@, v),
    {
        self.value = Some(v);
        let n = self.pending.len();
        let mut i: usize = 0;
        while i < n
            invariant
                i <= n,
                n == self.pending@.len(),
                self.value == Some(v),
                self.max_subscribers == old(self).max_subscribers,
                forall|k: int| 0 <= k < i ==> self.pending@[k],
            decreases n - i,
        {
            self.pending[i] = true;
            i = i + 1;
        }
        proof {
            assert(self.pending@ =~= Seq::new(old(self).pending@.len(), |k: int| true));
        }
    }

    /// The current value: the most recent write, or nothing while the
    /// cell is empty (a reader would suspend until the first write).
    pub fn read(&self) -> (r: Option<&T>)
        ensures
            match r {
                Some(x) => self@.value == Some(*x),
                None => self@.value is None,
            },
    {
        match &self.value {
            Some(x) => Some(x),
            None => None,
        }
    }

    /// Attach a subscriber.  It will observe the next update, not the
    /// value already stored; attach fails once the limit is reached.
    pub fn subscribe(&mut self) -> (r: Result<usize, SubscriptionError>)
        ensures
            old(self)@.pending.len() < old(self)@.max_subscribers ==> (r matches Ok(id) && id
                == old(self)@.pending.len() && final(self)@ == (LatestModel {
                pending: old(self)@.pending.push(false),
                ..old(self)@
            })),
            old(self)@.pending.len() >= old(self)@.max_subscribers ==> (r matches Err(e) && e
                == SubscriptionError::LimitReached && final(self)@ == old(self)@),
    {
        if self.pending.len() < self.max_subscribers {
            let id = self.pending.len();
            self.pending.push(false);
            Ok(id)
        } else {
            Err(SubscriptionError::LimitReached)
        }
    }

    /// Whether subscriber `sub` has an update it has not yet taken.
    pub fn has_update(&self, sub: usize) -> (r: bool)
        requires
            sub < self@.pending.len(),
        ensures
            r == self@.pending[sub as int],
    {
        self.pending[sub]
    }

    /// Take subscriber `sub`'s pending update: it will not see the same
    /// write twice.
    pub fn ack(&mut self, sub: usize)
        requires
            sub < old(self)@.pending.len(),
        ensures
            final(self)@ == (LatestModel {
                pending: old(self)@.pending.update(sub as int, false),
                ..old(self)@
            }),
    {
        self.pending[sub] = false;
    }
}

/// The abstract state of a bounded ring cell: up to `capacity` items in
/// arrival order, one read cursor per subscriber, and the subscriber
/// limit.
pub ghost struct RingModel<T> {
    pub capacity: nat,
    pub items: Seq<T>,
    pub cursors: Seq<nat>,
    pub max_subscribers: nat,
}

/// The ring's structural invariant: a positive fixed capacity, never more
/// items than it, and every cursor within the retained items.
pub open spec fn ring_inv<T>(m: RingModel<T>) -> bool {
    &&& m.capacity >= 1
    &&& m.items.len() <= m.capacity
    &&& forall|i: int| 0 <= i < m.cursors.len() ==> #[trigger] m.cursors[i] <= m.items.len()
}

/// What one write does: append; a full ring drops its oldest entry and
/// cursors slide with the items, so a lagging subscriber at the dropped
/// entry skips to the oldest surviving one rather than blocking the
/// writer.
pub open spec fn ring_write<T>(m: RingModel<T>, v: T) -> RingModel<T> {
    if m.items.len() < m.capacity {
        RingModel { items: m.items.push(v), ..m }
    } else {
        RingModel {
            items: m.items.drop_first().push(v),
            cursors: m.cursors.map_values(
                |c: nat|
                    if c > 0 {
                        (c - 1) as nat
                    } else {
                        0nat
                    },
            ),
            ..m
        }
    }
}

/// A sequence of writes applied in order.
pub open spec fn ring_write_all<T>(m: RingModel<T>, vs: Seq<T>) -> RingModel<T>
    decreases vs.len(),
{
    if vs.len() == 0 {
        m
    } else {
        ring_write(ring_write_all(m, vs.drop_last()), vs.last())
    }
}

/// What subscriber `sub` will observe if it drains the ring now: the
/// retained items from its cursor on, in arrival order.
pub open spec fn ring_remaining<T>(m: RingModel<T>, sub: int) -> Seq<T> {
    m.items.skip(m.cursors[sub] as int)
}

/// Writes preserve the ring invariant, keep the subscriber count, retain
/// exactly the last `capacity` of everything ever written, and never move
/// a cursor that stands at the oldest retained entry.
pub proof fn lemma_ring_write_all<T>(m: RingModel<T>, vs: Seq<T>)
    requires
        ring_inv(m),
    ensures
        ring_inv(ring_write_all(m, vs)),
        ring_write_all(m, vs).capacity == m.capacity,
        ring_write_all(m, vs).max_subscribers == m.max_subscribers,
        ring_write_all(m, vs).cursors.len() == m.cursors.len(),
        ring_write_all(m, vs).items =~= ({
            let all = m.items + vs;
            if all.len() <= m.capacity {
                all
            } else {
                all.skip(all.len() - m.capacity)
            }
        }),
        forall|i: int|
            0 <= i < m.cursors.len() && m.cursors[i] == 0 ==> #[trigger] ring_write_all(
                m,
                vs,
            ).cursors[i] == 0,
    decreases vs.len(),
{
    if vs.len() > 0 {
        lemma_ring_write_all(m, vs.drop_last());
        let prev = ring_write_all(m, vs.drop_last());
        let all0 = m.items + vs.drop_last();
        let all = m.items + vs;
        assert(all0.push(vs.last()) =~= all);
        if prev.items.len() < prev.capacity {
            assert(ring_write(prev, vs.last()).items =~= prev.items.push(vs.last()));
            if all.len() > m.capacity {
                assert(prev.items.push(vs.last()) =~= all.skip(all.len() - m.capacity));
            }
        } else {
            assert(ring_write(prev, vs.last()).items =~= prev.items.drop_first().push(vs.last()));
            assert(all.len() > m.capacity);
            assert(prev.items.drop_first().push(vs.last()) =~= all.skip(all.len() - m.capacity));
        }
    } else {
        assert(m.items + vs =~= m.items);
    }
}

/// Law: on a fresh ring of capacity N, writing N+k values (k > 0) keeps
/// exactly the last N in write order, and a subscriber that has read
/// nothing drains exactly those — the earliest k values are dropped.
pub proof fn lemma_ring_overflow_drops_oldest<T>(m: RingModel<T>, vs: Seq<T>, sub: int)
    requires
        ring_inv(m),
        m.items.len() == 0,
        vs.len() >= m.capacity,
        0 <= sub < m.cursors.len(),
        m.cursors[sub] == 0,
    ensures
        ring_inv(ring_write_all(m, vs)),
        ring_write_all(m, vs).items =~= vs.skip(vs.len() - m.capacity),
        ring_remaining(ring_write_all(m, vs), sub) =~= vs.skip(vs.len() - m.capacity),
{
    lemma_ring_write_all(m, vs);
    assert(m.items + vs =~= vs);
    if vs.len() > m.capacity {
        assert((m.items + vs).skip(vs.len() - m.capacity) =~= vs.skip(vs.len() - m.capacity));
    } else {
        assert(vs.skip(vs.len() - m.capacity) =~= vs);
    }
    let res = ring_write_all(m, vs);
    assert(res.cursors[sub] == 0);
    assert(ring_remaining(res, sub) =~= res.items);
}

/// A bounded multi-consumer ring cell.
pub struct RingCell<T> {
    capacity: usize,
    items: Vec<T>,
    cursors: Vec<usize>,
    max_subscribers: usize,
}

impl<T> View for RingCell<T> {
    type V = RingModel<T>;

    closed spec fn view(&self) -> RingModel<T> {
        RingModel {
            capacity: self.capacity as nat,
            items: self.items@,
            cursors: self.cursors@.map_values(|c: usize| c as nat),
            max_subscribers: self.max_subscribers as nat,
        }
    }
}

impl<T> RingCell<T> {
    /// Create an empty ring of the given fixed capacity, admitting at
    /// most `max_subscribers` readers.
    pub fn new(capacity: usize, max_subscribers: usize) -> (r: RingCell<T>)
        requires
            capacity >= 1,
        ensures
            r@.capacity == capacity as nat,
            r@.items == Seq::<T>::empty(),
            r@.cursors == Seq::<nat>::empty(),
            r@.max_subscribers == max_subscribers as nat,
            ring_inv(r@),
    {
        let r = RingCell { capacity, items: Vec::new(), cursors: Vec::new(), max_subscribers };
        proof {
            assert(r@.cursors =~= Seq::<nat>::empty());
        }
        r
    }

    /// Append a value; the writer never blocks.  A full ring drops its
    /// oldest entry and slides the cursors with the items.
    pub fn write(&mut self, v: T)
        requires
            ring_inv(old(self)@),
        ensures
            final(self)@ == ring_write(old(self)@, v),
            ring_inv(final(self)@),
    {
        if self.items.len() == self.capacity {
            self.items.remove(0);
            let n = self.cursors.len();
            let mut i: usize = 0;
            while i < n
                invariant
                    i <= n,
                    n == self.cursors@.len(),
                    self.capacity == old(self).capacity,
                    self.max_subscribers == old(self).max_subscribers,
                    self.items@ == old(self).items@.drop_first(),
                    forall|k: int|
                        0 <= k < i ==> #[trigger] self.cursors@[k] as nat == (if old(
                            self,
                        ).cursors@[k] > 0 {
                            (old(self).cursors@[k] - 1) as nat
                        } else {
                            0nat
                        }),
                    forall|k: int| i <= k < n ==> self.cursors@[k] == old(self).cursors@[k],
                decreases n - i,
            {
                if self.cursors[i] > 0 {
                    let c = self.cursors[i];
                    self.cursors[i] = c - 1;
                }
                i = i + 1;
            }
            self.items.push(v);
            proof {
                assert(final(self)@.cursors =~= ring_write(old(self)@, v).cursors);
                assert(final(self)@.items =~= ring_write(old(self)@, v).items);
                assert(final(self)@ == ring_write(old(self)@, v));
            }
        } else {
            self.items.push(v);
            proof {
                assert(final(self)@ == ring_write(old(self)@, v));
            }
        }
    }

    /// Attach a reader at the oldest retained entry; attach fails once
    /// the limit is reached.
    pub fn subscribe(&mut self) -> (r: Result<usize, SubscriptionError>)
        requires
            ring_inv(old(self)@),
        ensures
            ring_inv(final(self)@),
            old(self)@.cursors.len() < old(self)@.max_subscribers ==> (r matches Ok(id) && id
                == old(self)@.cursors.len() && final(self)@ == (RingModel {
                cursors: old(self)@.cursors.push(0),
                ..old(self)@
            })),
            old(self)@.cursors.len() >= old(self)@.max_subscribers ==> (r matches Err(e) && e
                == SubscriptionError::LimitReached && final(self)@ == old(self)@),
    {
        if self.cursors.len() < self.max_subscribers {
            let id = self.cursors.len();
            self.cursors.push(0);
            proof {
                assert(final(self)@.cursors =~= old(self)@.cursors.push(0));
            }
            Ok(id)
        } else {
            Err(SubscriptionError::LimitReached)
        }
    }

    /// The next unread item for subscriber `sub`, oldest first; nothing
    /// when the subscriber has seen everything retained (a reader would
    /// suspend there).
    pub fn peek(&self, sub: usize) -> (r: Option<&T>)
        requires
            ring_inv(self@),
            sub < self@.cursors.len(),
        ensures
            match r {
                Some(x) => ring_remaining(self@, sub as int).len() > 0 && *x == ring_remaining(
                    self@,
                    sub as int,
                )[0],
                None => ring_remaining(self@, sub as int).len() == 0,
            },
    {
        let c = self.cursors[sub];
        if c < self.items.len() {
            Some(&self.items[c])
        } else {
            None
        }
    }

    /// Step subscriber `sub` past the item it just observed; at the end
    /// of the retained items this does nothing.
    pub fn advance(&mut self, sub: usize)
        requires
            ring_inv(old(self)@),
            sub < old(self)@.cursors.len(),
        ensures
            ring_inv(final(self)@),
            final(self)@ == (RingModel {
                cursors: old(self)@.cursors.update(
                    sub as int,
                    if old(self)@.cursors[sub as int] < old(self)@.items.len() {
                        (old(self)@.cursors[sub as int] + 1) as nat
                    } else {
                        old(self)@.cursors[sub as int]
                    },
                ),
                ..old(self)@
            }),
    {
        let c = self.cursors[sub];
        if c < self.items.len() {
            self.cursors[sub] = c + 1;
        }
        proof {
            assert(final(self)@.cursors =~= (RingModel {
                cursors: old(self)@.cursors.update(
                    sub as int,
                    if old(self)@.cursors[sub as int] < old(self)@.items.len() {
                        (old(self)@.cursors[sub as int] + 1) as nat
                    } else {
                        old(self)@.cursors[sub as int]
                    },
                ),
                ..old(self)@
            }).cursors);
        }
    }

    /// How many items the ring retains right now.
    pub fn len(&self) -> (r: usize)
        ensures
            r as nat == self@.items.len(),
    {
        self.items.len()
    }

    /// The fixed capacity the ring was created with.
    pub fn capacity(&self) -> (r: usize)
        ensures
            r as nat == self@.capacity,
    {
        self.capacity
    }
}

} // verus!
