//! Roles, and the leader's table of live replicas kept by heartbeats.
use crate::keyed::{
    keys_unique, lemma_to_map_dom, lemma_to_map_push, lemma_to_map_remove, lemma_unique_remove,
    to_map,
};
use vstd::prelude::*;

verus! {

/// What a node does: the leader takes writes; a replica forwards them.
#[derive(Clone, Copy, Debug, PartialEq, Eq, Structural)]
pub enum Role {
    Leader,
    Replica,
}

/// Seconds without a heartbeat after which a replica counts as dead.
pub const DEAD_TIMEOUT_S: u64 = 10;

/// Seconds between two sweeps of the live-replica table.
pub const MONITOR_PERIOD_S: u64 = 10;

/// Seconds between two heartbeats that a replica sends.
pub const HEARTBEAT_PERIOD_S: u64 = 5;

/// Whether a replica last heard from at `last` is dead at time `now`.
pub open spec fn is_dead(last: u64, now: u64) -> bool {
    now > last + DEAD_TIMEOUT_S
}

/// The entries of `m` that are alive at `now`.
pub open spec fn alive_at(m: Map<Seq<char>, u64>, now: u64) -> Map<Seq<char>, u64> {
    Map::new(|k: Seq<char>| m.contains_key(k) && !is_dead(m[k], now), |k: Seq<char>| m[k])
}

/// Whether `k` is among the addresses of `v`.
pub open spec fn lists(v: Seq<String>, k: Seq<char>) -> bool {
    exists|j: int| 0 <= j < v.len() && (#[trigger] v[j])@ == k
}

pub open spec fn dead_among(ps: Seq<(Seq<char>, u64)>, n: int, k: Seq<char>, now: u64) -> bool {
    exists|x: int| 0 <= x < n && (#[trigger] ps[x]).0 == k && is_dead(ps[x].1, now)
}

pub open spec fn peer_views(v: Seq<(String, u64)>) -> Seq<(Seq<char>, u64)> {
    v.map_values(|e: (String, u64)| (e.0@, e.1))
}

/// Replica address to the time of its last heartbeat, in seconds.
pub struct LiveReplicas {
    peers: Vec<(String, u64)>,
}

impl View for LiveReplicas {
    type V = Map<Seq<char>, u64>;

    closed spec fn view(&self) -> Map<Seq<char>, u64> {
        to_map(peer_views(self.peers@))
    }
}

impl LiveReplicas {
    pub closed spec fn wf(&self) -> bool {
        keys_unique(peer_views(self.peers@))
    }

    pub fn new() -> (r: LiveReplicas)
        ensures
            r.wf(),
            r@ == Map::<Seq<char>, u64>::empty(),
    {
        let r = LiveReplicas { peers: Vec::new() };
        proof {
            assert(peer_views(r.peers@) =~= Seq::empty());
        }
        r
    }

    pub fn len(&self) -> (r: usize)
        requires
            self.wf(),
        ensures
            r == self@.len(),
    {
        proof {
            lemma_unique_len(peer_views(self.peers@));
        }
        self.peers.len()
    }

    fn find(&self, addr: &String) -> (r: Option<usize>)
        requires
            self.wf(),
        ensures
            r is Some <==> self@.contains_key(addr@),
            r matches Some(i) ==> i < self.peers@.len() && peer_views(self.peers@)[i as int].0 == addr@,
    {
        proof {
            lemma_to_map_dom(peer_views(self.peers@), addr@);
        }
        let mut i: usize = 0;
        while i < self.peers.len()
            invariant
                i <= self.peers@.len(),
                self.wf(),
                forall|j: int| 0 <= j < i ==> (#[trigger] peer_views(self.peers@)[j]).0 != addr@,
            decreases self.peers.len() - i,
        {
            if self.peers[i].0 == *addr {
                proof {
                    assert(peer_views(self.peers@)[i as int].0 == addr@);
                    crate::keyed::lemma_to_map_index(peer_views(self.peers@), i as int);
                }
                return Some(i);
            }
            proof {
                assert(peer_views(self.peers@)[i as int].0 == self.peers@[i as int].0@);
            }
            i += 1;
        }
        None
    }

    fn remove_at(&mut self, i: usize)
        requires
            old(self).wf(),
            i < old(self).peers@.len(),
        ensures
            final(self).wf(),
            final(self)@ == old(self)@.remove(peer_views(old(self).peers@)[i as int].0),
    {
        proof {
            lemma_to_map_remove(peer_views(self.peers@), i as int);
            lemma_unique_remove(peer_views(self.peers@), i as int);
            assert(peer_views(self.peers@).remove(i as int) =~= peer_views(self.peers@.remove(i as int)));
        }
        self.peers.remove(i);
    }

    /// Records a heartbeat from `addr` at time `now`.
    pub fn handle_heartbeat(&mut self, addr: String, now: u64)
        requires
            old(self).wf(),
        ensures
            final(self).wf(),
            final(self)@ == old(self)@.insert(addr@, now),
    {
        let ghost m0 = self@;
        match self.find(&addr) {
            Some(i) => {
                self.remove_at(i);
            },
            None => {
                proof {
                    assert(m0.remove(addr@) =~= m0);
                }
            },
        }
        let ghost mid = peer_views(self.peers@);
        proof {
            lemma_to_map_dom(mid, addr@);
            assert(!to_map(mid).contains_key(addr@));
        }
        let ghost k = addr@;
        self.peers.push((addr, now));
        proof {
            assert(peer_views(self.peers@) =~= mid.push((k, now)));
            lemma_to_map_push(mid, k, now);
            assert(self@ =~= m0.insert(k, now));
            assert forall|a: int, b: int| 0 <= a < b < peer_views(self.peers@).len() implies (#[trigger] peer_views(self.peers@)[a]).0
                != (#[trigger] peer_views(self.peers@)[b]).0 by {
                if b == mid.len() {
                    assert(mid[a].0 != k);
                }
            }
        }
    }

    /// The addresses whose last heartbeat is more than `DEAD_TIMEOUT_S`
    /// seconds before `now`. Reads the table only.
    pub fn dead_replicas(&self, now: u64) -> (r: Vec<String>)
        requires
            self.wf(),
        ensures
            forall|k: Seq<char>| #[trigger] lists(r@, k) <==> (
            self@.contains_key(k) && is_dead(self@[k], now)),
    {
        let ghost ps = peer_views(self.peers@);
        let mut out: Vec<String> = Vec::new();
        let mut i: usize = 0;
        while i < self.peers.len()
            invariant
                i <= self.peers@.len(),
                self.wf(),
                ps == peer_views(self.peers@),
                forall|k: Seq<char>| #[trigger] lists(out@, k) <==> dead_among(ps, i as int, k, now),
            decreases self.peers.len() - i,
        {
            let ghost o = out@;
            proof {
                assert(ps[i as int] == (self.peers@[i as int].0@, self.peers@[i as int].1));
            }
            if now > self.peers[i].1 && now - self.peers[i].1 > DEAD_TIMEOUT_S {
                out.push(self.peers[i].0.clone());
                proof {
                    lemma_dead_pushed(ps, o, out@, i as int, now);
                }
            } else {
                proof {
                    lemma_dead_skipped(ps, o, i as int, now);
                }
            }
            i += 1;
        }
        proof {
            assert forall|k: Seq<char>| #[trigger] dead_among(ps, ps.len() as int, k, now)
                <==> (self@.contains_key(k) && is_dead(self@[k], now)) by {
                lemma_to_map_dom(ps, k);
                if exists|x: int| 0 <= x < ps.len() && (#[trigger] ps[x]).0 == k && is_dead(ps[x].1, now) {
                    let x = choose|x: int| 0 <= x < ps.len() && (#[trigger] ps[x]).0 == k && is_dead(ps[x].1, now);
                    crate::keyed::lemma_to_map_index(ps, x);
                }
                if self@.contains_key(k) {
                    let x = choose|x: int| 0 <= x < ps.len() && (#[trigger] ps[x]).0 == k;
                    crate::keyed::lemma_to_map_index(ps, x);
                }
            }
        }
        out
    }

    /// Removes each address of `addrs` that is still dead at `now`. The
    /// time is read again here, so a heartbeat that came in after `addrs` was
    /// collected keeps its replica.
    pub fn remove_replicas(&mut self, addrs: &Vec<String>, now: u64)
        requires
            old(self).wf(),
        ensures
            final(self).wf(),
            forall|k: Seq<char>| #[trigger] final(self)@.contains_key(k) <==> (old(self)@.contains_key(k)
                && !(lists(addrs@, k) && is_dead(old(self)@[k], now))),
            forall|k: Seq<char>| #[trigger] final(self)@.contains_key(k) ==> final(self)@[k] == old(self)@[k],
    {
        let mut j: usize = 0;
        proof {
            assert forall|k: Seq<char>| !lists(addrs@.take(0), k) by {}
        }
        while j < addrs.len()
            invariant
                j <= addrs.len(),
                self.wf(),
                forall|k: Seq<char>| #[trigger] self@.contains_key(k) <==> (old(self)@.contains_key(k)
                    && !(lists(addrs@.take(j as int), k) && is_dead(old(self)@[k], now))),
                forall|k: Seq<char>| #[trigger] self@.contains_key(k) ==> self@[k] == old(self)@[k],
            decreases addrs.len() - j,
        {
            let ghost m = self@;
            let ghost a = addrs@[j as int]@;
            match self.find(&addrs[j]) {
                Some(i) => {
                    proof {
                        crate::keyed::lemma_to_map_index(peer_views(self.peers@), i as int);
                        assert(peer_views(self.peers@)[i as int].1 == self.peers@[i as int].1);
                    }
                    let last = self.peers[i].1;
                    if now > last && now - last > DEAD_TIMEOUT_S {
                        self.remove_at(i);
                    }
                },
                None => {},
            }
            proof {
                assert(self@ == m.remove(a) && m.contains_key(a) && is_dead(m[a], now) || (self@ == m && !(
                m.contains_key(a) && is_dead(m[a], now))));
                assert forall|k: Seq<char>| #[trigger] self@.contains_key(k) <==> (old(self)@.contains_key(k)
                    && !(lists(addrs@.take(j + 1), k) && is_dead(old(self)@[k], now))) by {
                    lemma_lists_step(addrs@, j as int, k);
                }
            }
            j += 1;
        }
        proof {
            assert(addrs@.take(j as int) =~= addrs@);
        }
    }

    /// One sweep of the monitor: finds the dead replicas, then removes them.
    pub fn monitor_replicas(&mut self, now: u64) -> (dead: Vec<String>)
        requires
            old(self).wf(),
        ensures
            final(self).wf(),
            final(self)@ == alive_at(old(self)@, now),
            forall|k: Seq<char>| #[trigger] lists(dead@, k) <==> (old(self)@.contains_key(k) && is_dead(
                old(self)@[k],
                now,
            )),
    {
        let dead = self.dead_replicas(now);
        let ghost m0 = self@;
        self.remove_replicas(&dead, now);
        proof {
            assert(self@ =~= alive_at(m0, now));
        }
        dead
    }
}

proof fn lemma_dead_pushed(ps: Seq<(Seq<char>, u64)>, o: Seq<String>, out: Seq<String>, i: int, now: u64)
    requires
        0 <= i < ps.len(),
        is_dead(ps[i].1, now),
        out == o.push(out.last()),
        out.last()@ == ps[i].0,
        forall|k: Seq<char>| #[trigger] lists(o, k) <==> dead_among(ps, i, k, now),
    ensures
        forall|k: Seq<char>| #[trigger] lists(out, k) <==> dead_among(ps, i + 1, k, now),
{
    assert forall|k: Seq<char>| #[trigger] lists(out, k) <==> dead_among(ps, i + 1, k, now) by {
        assert(lists(o, k) <==> dead_among(ps, i, k, now));
        if lists(out, k) {
            let j = choose|j: int| 0 <= j < out.len() && (#[trigger] out[j])@ == k;
            if j < o.len() {
                assert(o[j] == out[j]);
                assert(lists(o, k));
                let x = choose|x: int| 0 <= x < i && (#[trigger] ps[x]).0 == k && is_dead(ps[x].1, now);
                assert(dead_among(ps, i + 1, k, now));
            } else {
                assert(ps[i].0 == k);
                assert(dead_among(ps, i + 1, k, now));
            }
        }
        if dead_among(ps, i + 1, k, now) {
            let x = choose|x: int| 0 <= x < i + 1 && (#[trigger] ps[x]).0 == k && is_dead(ps[x].1, now);
            if x < i {
                assert(dead_among(ps, i, k, now));
                let j = choose|j: int| 0 <= j < o.len() && (#[trigger] o[j])@ == k;
                assert(out[j] == o[j]);
            } else {
                assert(out[o.len() as int]@ == k);
            }
        }
    }
}

proof fn lemma_dead_skipped(ps: Seq<(Seq<char>, u64)>, o: Seq<String>, i: int, now: u64)
    requires
        0 <= i < ps.len(),
        !is_dead(ps[i].1, now),
        forall|k: Seq<char>| #[trigger] lists(o, k) <==> dead_among(ps, i, k, now),
    ensures
        forall|k: Seq<char>| #[trigger] lists(o, k) <==> dead_among(ps, i + 1, k, now),
{
    assert forall|k: Seq<char>| #[trigger] lists(o, k) <==> dead_among(ps, i + 1, k, now) by {
        assert(lists(o, k) <==> dead_among(ps, i, k, now));
        if dead_among(ps, i, k, now) {
            let x = choose|x: int| 0 <= x < i && (#[trigger] ps[x]).0 == k && is_dead(ps[x].1, now);
            assert(dead_among(ps, i + 1, k, now));
        }
        if dead_among(ps, i + 1, k, now) {
            let x = choose|x: int| 0 <= x < i + 1 && (#[trigger] ps[x]).0 == k && is_dead(ps[x].1, now);
            assert(x < i);
            assert(dead_among(ps, i, k, now));
        }
    }
}

proof fn lemma_lists_step(v: Seq<String>, j: int, k: Seq<char>)
    requires
        0 <= j < v.len(),
    ensures
        lists(v.take(j + 1), k) <==> (lists(v.take(j), k) || v[j]@ == k),
{
    if lists(v.take(j + 1), k) {
        let i = choose|i: int| 0 <= i < j + 1 && (#[trigger] v.take(j + 1)[i])@ == k;
        if i < j {
            assert(v.take(j)[i] == v[i]);
        }
    }
    if lists(v.take(j), k) {
        let i = choose|i: int| 0 <= i < j && (#[trigger] v.take(j)[i])@ == k;
        assert(v.take(j + 1)[i] == v[i]);
    }
    if v[j]@ == k {
        assert(v.take(j + 1)[j] == v[j]);
    }
}

proof fn lemma_unique_len(s: Seq<(Seq<char>, u64)>)
    requires
        keys_unique(s),
    ensures
        to_map(s).len() == s.len(),
    decreases s.len(),
{
    if s.len() > 0 {
        crate::keyed::lemma_unique_drop_last(s);
        lemma_unique_len(s.drop_last());
        lemma_to_map_dom(s.drop_last(), s.last().0);
        if to_map(s.drop_last()).contains_key(s.last().0) {
            let x = choose|x: int| 0 <= x < s.drop_last().len() && (#[trigger] s.drop_last()[x]).0 == s.last().0;
            assert(s[x].0 == s[s.len() - 1].0);
        }
        crate::keyed::lemma_to_map_finite(s.drop_last());
    }
}

/// A replica heard from at `t` is still in the table after a sweep at any
/// `now` up to `t + DEAD_TIMEOUT_S`, and gone after a sweep at any later `now`.
pub proof fn lemma_liveness(m: Map<Seq<char>, u64>, addr: Seq<char>, t: u64, now: u64)
    ensures
        now <= t + DEAD_TIMEOUT_S ==> alive_at(m.insert(addr, t), now).contains_key(addr)
            && alive_at(m.insert(addr, t), now)[addr] == t,
        now > t + DEAD_TIMEOUT_S ==> !alive_at(m.insert(addr, t), now).contains_key(addr),
{
}

} // verus!
