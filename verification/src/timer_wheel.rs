//! Timeout management for the reactor: a wheel of pending deadlines.
//!
//! Deadlines are absolute tick values, never durations, so repeated re-arming
//! cannot drift. Nodes live in an index-addressed arena owned by the wheel;
//! a node identifier handed out by [`TimerWheel::link`] stays valid until the
//! node fires or is unlinked. Sweeping with [`TimerWheel::run`] fires every
//! node whose deadline has elapsed exactly once, in deadline order, and a
//! backward jump of the clock fires nothing and leaves the cursor untouched.
//!
//! The arena is kept flat and the sweep selects due nodes directly, rather
//! than cascading them through hierarchical slot arrays: the flat form lets
//! the sweep promise its exact firing set and order, which is what the
//! reactor's own proofs and callers lean on. The level count a wheel is
//! built with is recorded for its construction surface.

use vstd::prelude::*;

verus! {

use crate::NO_TIMERS;

/// The expiry callback interface: a pending deadline's payload is told that
/// its timer fired. Consumers that drive a wheel directly may implement this
/// for their payload type; the reactor instead drains the fired payloads from
/// the sweep and runs its own close protocol on each.
pub trait Timeout where Self: Sized {
    fn timeout(&self, timer: &Timer<Self>);
}

/// One pending deadline: an absolute expiry tick and the payload it belongs
/// to. The wheel owns every `Timer` in its arena; the payload is handed back
/// out when the deadline fires.
pub struct Timer<T> {
    /// Absolute tick at which the deadline elapses.
    pub expire_at: u64,
    /// The payload fired when the deadline elapses.
    pub data: T,
}

impl<T> Timer<T> {
    /// Builds a node for the given absolute expiry tick.
    pub fn new(expire_at: u64, data: T) -> (t: Timer<T>)
        ensures
            t.expire_at == expire_at,
            t.data == data,
    {
        Timer { expire_at, data }
    }
}

/// The set of identifiers of entries due at or before `now`.
pub open spec fn due_ids<T>(m: Map<int, (u64, T)>, now: u64) -> Set<int> {
    m.dom().filter(|i: int| m[i].0 <= now)
}

/// What a sweep hands back: `ids` lists, without repetition, exactly the
/// entries of `m` due at or before `now`; `fired` carries their payloads in
/// that order; and the order is by expiry tick, entries sharing a tick in
/// linking order — node identifiers are never reused, so a larger
/// identifier always means a later link.
pub open spec fn fired_in_order<T>(
    m: Map<int, (u64, T)>,
    now: u64,
    ids: Seq<int>,
    fired: Seq<T>,
) -> bool {
    &&& ids.no_duplicates()
    &&& ids.to_set() == due_ids(m, now)
    &&& fired.len() == ids.len()
    &&& (forall|k: int| 0 <= k < ids.len() ==> fired[k] == m[#[trigger] ids[k]].1)
    &&& (forall|k1: int, k2: int|
        0 <= k1 < k2 < ids.len() ==> (m[#[trigger] ids[k1]].0 < m[#[trigger] ids[k2]].0 || (
        m[ids[k1]].0 == m[ids[k2]].0 && ids[k1] < ids[k2])))
}

/// Law: when every pending deadline is due — `now` at or past the largest
/// expiry tick — a sweep fires each of the entries exactly once, so the
/// fired payloads number exactly the entries, and the wheel keeps none of
/// them. With [`TimerWheel::run`]'s contract this says: sweeping at the
/// largest expiry fires every pending timeout exactly once and leaves the
/// wheel empty, so `wake_at` then reports no timers.
pub proof fn lemma_sweep_fires_all_due<T>(
    m: Map<int, (u64, T)>,
    now: u64,
    ids: Seq<int>,
    fired: Seq<T>,
)
    requires
        m.dom().finite(),
        forall|i: int| m.dom().contains(i) ==> #[trigger] m[i].0 <= now,
        fired_in_order(m, now, ids, fired),
    ensures
        fired.len() == m.dom().len(),
        m.remove_keys(due_ids(m, now)) == Map::<int, (u64, T)>::empty(),
{
    assert(due_ids(m, now) =~= m.dom());
    ids.unique_seq_to_set();
    assert(m.remove_keys(due_ids(m, now)) =~= Map::<int, (u64, T)>::empty());
}

/// Tracks pending deadlines for the reactor and answers "what is due now"
/// and "when must the loop wake" over them.
///
/// The abstract state is a finite map from node identifier to (expiry tick,
/// payload), plus the cursor: the tick up to which the wheel has already
/// been swept.
pub struct TimerWheel<T> {
    /// Level count requested at construction.
    num_wheels: u32,
    /// The tick the last sweep ran up to.
    last_run: u64,
    /// Node arena, indexed by node identifier; a fired or unlinked node
    /// leaves `None` behind, and its identifier is retired for good.
    nodes: Vec<Option<Timer<T>>>,
}

impl<T> View for TimerWheel<T> {
    type V = Map<int, (u64, T)>;

    closed spec fn view(&self) -> Map<int, (u64, T)> {
        Map::new(
            |i: int| 0 <= i < self.nodes@.len() && self.nodes@[i] is Some,
            |i: int| (self.nodes@[i]->Some_0.expire_at, self.nodes@[i]->Some_0.data),
        )
    }
}

impl<T> TimerWheel<T> {
    /// Every linked node expires strictly before the `NO_TIMERS` sentinel.
    pub closed spec fn wf(&self) -> bool {
        forall|i: int|
            0 <= i < self.nodes@.len() && self.nodes@[i] is Some
                ==> (#[trigger] self.nodes@[i])->Some_0.expire_at < NO_TIMERS
    }

    /// The tick up to which the wheel has been swept.
    pub closed spec fn cursor(&self) -> u64 {
        self.last_run
    }

    /// The level count the wheel was built with.
    pub closed spec fn level_count(&self) -> u32 {
        self.num_wheels
    }

    /// The wheel's entries form a finite map.
    pub proof fn lemma_entries_finite(&self)
        ensures
            self@.dom().finite(),
    {
        let whole = vstd::set_lib::set_int_range(0, self.nodes@.len() as int);
        vstd::set_lib::lemma_int_range(0, self.nodes@.len() as int);
        assert(self@.dom().subset_of(whole));
        vstd::set_lib::lemma_len_subset(self@.dom(), whole);
    }

    /// A fresh wheel: no entries, cursor at `now`.
    pub fn new(num_wheels: u32, now: u64) -> (w: TimerWheel<T>)
        ensures
            w.wf(),
            w@ == Map::<int, (u64, T)>::empty(),
            w.cursor() == now,
            w.level_count() == num_wheels,
    {
        let w = TimerWheel { num_wheels, last_run: now, nodes: Vec::new() };
        proof {
            assert(w@ =~= Map::<int, (u64, T)>::empty());
        }
        w
    }

    /// The smallest pending expiry tick, or `NO_TIMERS` when no node is
    /// linked.
    pub fn wake_at(&self) -> (r: u64)
        requires
            self.wf(),
        ensures
            forall|i: int| self@.dom().contains(i) ==> self@[i].0 >= r,
            r != NO_TIMERS ==> exists|i: int| self@.dom().contains(i) && self@[i].0 == r,
            r == NO_TIMERS ==> self@ == Map::<int, (u64, T)>::empty(),
    {
        let mut r: u64 = NO_TIMERS;
        let mut i: usize = 0;
        while i < self.nodes.len()
            invariant
                self.wf(),
                i <= self.nodes@.len(),
                forall|j: int| 0 <= j < i && self@.dom().contains(j) ==> self@[j].0 >= r,
                r != NO_TIMERS ==> exists|j: int|
                    0 <= j < i && self@.dom().contains(j) && self@[j].0 == r,
                r == NO_TIMERS ==> forall|j: int| 0 <= j < i ==> !self@.dom().contains(j),
            decreases self.nodes@.len() - i,
        {
            match &self.nodes[i] {
                Some(t) => {
                    if t.expire_at < r {
                        r = t.expire_at;
                        proof {
                            assert(self@.dom().contains(i as int) && self@[i as int].0 == r);
                        }
                    }
                },
                None => {},
            }
            i += 1;
        }
        proof {
            if r == NO_TIMERS {
                assert(self@ =~= Map::<int, (u64, T)>::empty());
            }
        }
        r
    }

    /// Whether any linked node is due at or before `now`.
    pub fn expired(&self, now: u64) -> (r: bool)
        requires
            self.wf(),
        ensures
            r == exists|i: int| self@.dom().contains(i) && self@[i].0 <= now,
    {
        let w = self.wake_at();
        if w != NO_TIMERS && w <= now {
            proof {
                let i = choose|i: int| self@.dom().contains(i) && self@[i].0 == w;
                assert(self@.dom().contains(i) && self@[i].0 <= now);
            }
            true
        } else {
            false
        }
    }

    /// Links a new deadline and returns its node identifier. Identifiers
    /// are never reused: the new one is larger than every identifier the
    /// wheel has ever handed out, so identifier order is linking order.
    /// Everything else is unchanged. The sentinel tick `NO_TIMERS` cannot
    /// be a deadline.
    pub fn link(&mut self, expire_at: u64, data: T) -> (id: usize)
        requires
            old(self).wf(),
            expire_at < NO_TIMERS,
        ensures
            final(self).wf(),
            !old(self)@.dom().contains(id as int),
            forall|i: int| old(self)@.dom().contains(i) ==> i < id as int,
            final(self)@ == old(self)@.insert(id as int, (expire_at, data)),
            final(self).cursor() == old(self).cursor(),
    {
        let id = self.nodes.len();
        self.nodes.push(Some(Timer::new(expire_at, data)));
        proof {
            assert(self@ =~= old(self)@.insert(id as int, (expire_at, data)));
        }
        id
    }

    /// Removes the node with the given identifier; a no-op when no such node
    /// is linked, so unlinking twice is harmless.
    pub fn unlink(&mut self, id: usize)
        requires
            old(self).wf(),
        ensures
            final(self).wf(),
            final(self)@ == old(self)@.remove(id as int),
            final(self).cursor() == old(self).cursor(),
    {
        if id < self.nodes.len() {
            self.nodes[id] = None;
        }
        proof {
            assert(self@ =~= old(self)@.remove(id as int));
        }
    }

    /// The expiry sweep. Advances the cursor from its old value to `now` and
    /// hands back the payload of every node due at or before `now`, each
    /// exactly once, ordered by expiry tick and, within a tick, by node
    /// identifier. A `now` at or before the cursor — a clock that stood
    /// still or jumped backward — fires nothing and changes nothing, the
    /// cursor included.
    pub fn run(&mut self, now: u64) -> (fired: Vec<T>)
        requires
            old(self).wf(),
        ensures
            final(self).wf(),
            now <= old(self).cursor() ==> *final(self) == *old(self) && fired@ == Seq::<
                T,
            >::empty(),
            now > old(self).cursor() ==> {
                &&& final(self).cursor() == now
                &&& final(self)@ == old(self)@.remove_keys(due_ids(old(self)@, now))
                &&& exists|ids: Seq<int>| #[trigger] fired_in_order(old(self)@, now, ids, fired@)
            },
    {
        let mut fired: Vec<T> = Vec::new();
        if now <= self.last_run {
            return fired;
        }
        let ghost m0 = self@;
        let ghost mut ids: Seq<int> = Seq::empty();
        proof {
            self.lemma_entries_finite();
            assert(due_ids(m0, now).subset_of(m0.dom()));
            vstd::set_lib::lemma_len_subset(due_ids(m0, now), m0.dom());
            assert(ids.to_set() =~= Set::<int>::empty());
            assert(self@ =~= m0.remove_keys(ids.to_set()));
        }
        loop
            invariant
                self.wf(),
                self.nodes@.len() == old(self).nodes@.len(),
                self.last_run == old(self).cursor(),
                m0 == old(self)@,
                due_ids(m0, now).finite(),
                ids.no_duplicates(),
                ids.len() == ids.to_set().len(),
                ids.len() <= due_ids(m0, now).len(),
                ids.to_set().subset_of(due_ids(m0, now)),
                self@ == m0.remove_keys(ids.to_set()),
                fired@.len() == ids.len(),
                forall|k: int| 0 <= k < ids.len() ==> fired@[k] == m0[#[trigger] ids[k]].1,
                forall|k1: int, k2: int|
                    0 <= k1 < k2 < ids.len() ==> (m0[#[trigger] ids[k1]].0 < m0[#[trigger] ids[k2]].0
                        || (m0[ids[k1]].0 == m0[ids[k2]].0 && ids[k1] < ids[k2])),
                forall|k: int, i: int|
                    0 <= k < ids.len() && self@.dom().contains(i) && #[trigger] self@[i].0 <= now
                        ==> (m0[#[trigger] ids[k]].0 < self@[i].0 || (m0[ids[k]].0 == self@[i].0
                        && ids[k] < i)),
            ensures
                self.wf(),
                self.last_run == old(self).cursor(),
                ids.no_duplicates(),
                ids.to_set() == due_ids(m0, now),
                self@ == m0.remove_keys(ids.to_set()),
                fired@.len() == ids.len(),
                forall|k: int| 0 <= k < ids.len() ==> fired@[k] == m0[#[trigger] ids[k]].1,
                forall|k1: int, k2: int|
                    0 <= k1 < k2 < ids.len() ==> (m0[#[trigger] ids[k1]].0 < m0[#[trigger] ids[k2]].0
                        || (m0[ids[k1]].0 == m0[ids[k2]].0 && ids[k1] < ids[k2])),
            decreases due_ids(m0, now).len() - ids.len(),
        {
            let mut best: usize = 0;
            let mut best_exp: u64 = NO_TIMERS;
            let mut found: bool = false;
            let mut i: usize = 0;
            while i < self.nodes.len()
                invariant
                    self.wf(),
                    i <= self.nodes@.len(),
                    found ==> self@.dom().contains(best as int) && self@[best as int].0 == best_exp
                        && best_exp <= now && best < i,
                    found ==> forall|j: int|
                        0 <= j < i && self@.dom().contains(j) && #[trigger] self@[j].0 <= now ==> (
                        best_exp < self@[j].0 || (best_exp == self@[j].0 && best <= j)),
                    !found ==> forall|j: int|
                        0 <= j < i && self@.dom().contains(j) ==> #[trigger] self@[j].0 > now,
                decreases self.nodes@.len() - i,
            {
                match &self.nodes[i] {
                    Some(t) => {
                        if t.expire_at <= now && (!found || t.expire_at < best_exp) {
                            found = true;
                            best = i;
                            best_exp = t.expire_at;
                        }
                    },
                    None => {},
                }
                i += 1;
            }
            if !found {
                proof {
                    assert forall|d: int| due_ids(m0, now).contains(d) implies ids.to_set()
                        .contains(d) by {
                        if !ids.to_set().contains(d) {
                            assert(self@.dom().contains(d));
                            assert(self@[d].0 <= now);
                        }
                    }
                    assert(ids.to_set() =~= due_ids(m0, now));
                }
                break;
            }
            let ghost mcur = self@;
            let slot: &mut Option<Timer<T>> = &mut self.nodes[best];
            let taken = slot.take();
            match taken {
                Some(t) => {
                    proof {
                        assert(!ids.to_set().contains(best as int));
                        assert(mcur[best as int] == (t.expire_at, t.data));
                        assert(self@ =~= mcur.remove(best as int));
                        let ids2 = ids.push(best as int);
                        assert forall|k: int| 0 <= k < ids.len() implies ids[k] != best as int by {
                            assert(ids.to_set().contains(ids[k]));
                        }
                        assert(ids2.no_duplicates());
                        broadcast use vstd::prelude::Seq::lemma_push_to_set_commute;

                        assert(ids2.to_set() =~= ids.to_set().insert(best as int));
                        assert(self@ =~= m0.remove_keys(ids2.to_set()));
                        ids2.unique_seq_to_set();
                        vstd::set_lib::lemma_len_subset(ids2.to_set(), due_ids(m0, now));
                        ids = ids2;
                    }
                    fired.push(t.data);
                },
                None => {
                    proof {
                        assert(false);
                    }
                },
            }
        }
        self.last_run = now;
        proof {
            assert(fired_in_order(m0, now, ids, fired@));
        }
        fired
    }
}

} // verus!
