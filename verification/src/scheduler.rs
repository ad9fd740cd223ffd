//! Dependency-driven release of reaches.
//!
//! The scheduler tracks, for every reach that is not yet runnable, how
//! many of its parents still have to finish. Reaches without parents
//! are ready from the start, in routing order. When a reach completes,
//! its downstream reach's unmet-parent count drops; at zero the reach
//! joins the ready queue. A reach is handed out at most once, and only
//! after every one of its parents has completed.

use crate::network::NetworkNode;
use crate::network::NetworkTopology;
use crate::network::is_parent;
use crate::network::lemma_parents_finite;
use crate::network::parents_of;
use crate::network::remaining_parents;
use crate::network::lemma_upstream_count;
use std::collections::HashMap;
use std::collections::VecDeque;
use vstd::prelude::*;
use vstd::set_lib::lemma_len_subset;

verus! {

broadcast use vstd::std_specs::hash::group_hash_axioms;

/// A reach with no parents.
pub open spec fn is_root(m: Map<u32, NetworkNode>, v: u32) -> bool {
    forall|p: u32| !is_parent(m, p, v)
}

proof fn lemma_root_iff(m: Map<u32, NetworkNode>, v: u32)
    requires
        m.dom().finite(),
    ensures
        is_root(m, v) <==> parents_of(m, v).len() == 0,
{
    lemma_parents_finite(m, v);
    if is_root(m, v) {
        assert(parents_of(m, v) =~= Set::<u32>::empty());
    }
    if parents_of(m, v).len() == 0 {
        parents_of(m, v).lemma_len0_is_empty();
        assert forall|p: u32| !is_parent(m, p, v) by {
            if is_parent(m, p, v) {
                assert(parents_of(m, v).contains(p));
            }
        }
    }
}

/// Filtering a duplicate-free sequence keeps it duplicate-free and
/// keeps exactly the matching elements.
pub proof fn lemma_filter_distinct(s: Seq<u32>, pred: spec_fn(u32) -> bool)
    requires
        s.no_duplicates(),
    ensures
        s.filter(pred).no_duplicates(),
        forall|x: u32|
            #![trigger s.filter(pred).contains(x)]
            s.filter(pred).contains(x) <==> (s.contains(x) && pred(x)),
    decreases s.len(),
{
    reveal(Seq::filter);
    if s.len() > 0 {
        let rest = s.drop_last();
        let last = s.last();
        assert(rest.no_duplicates()) by {
            assert(forall|i: int| 0 <= i < rest.len() ==> rest[i] == s[i]);
        }
        lemma_filter_distinct(rest, pred);
        let fr = rest.filter(pred);
        assert(!rest.contains(last)) by {
            if rest.contains(last) {
                let i = choose|i: int| 0 <= i < rest.len() && rest[i] == last;
                assert(s[i] == s[s.len() - 1]);
                assert(false);
            }
        }
        assert forall|x: u32|
            #![trigger s.filter(pred).contains(x)]
            s.filter(pred).contains(x) <==> (s.contains(x) && pred(x)) by {
            if pred(last) {
                assert(s.filter(pred) == fr.push(last));
                if fr.push(last).contains(x) {
                    let i = choose|i: int| 0 <= i < fr.len() + 1 && fr.push(last)[i] == x;
                    if i < fr.len() {
                        assert(fr[i] == x);
                        assert(fr.contains(x));
                        assert(rest.contains(x));
                        let j = choose|j: int| 0 <= j < rest.len() && rest[j] == x;
                        assert(s[j] == x);
                    } else {
                        assert(x == last);
                        assert(s[s.len() - 1] == x);
                    }
                }
                if s.contains(x) && pred(x) {
                    if x == last {
                        assert(fr.push(last)[fr.len() as int] == x);
                    } else {
                        let j = choose|j: int| 0 <= j < s.len() && s[j] == x;
                        assert(j < rest.len() && rest[j] == x);
                        assert(rest.contains(x));
                        assert(fr.contains(x));
                        let i = choose|i: int| 0 <= i < fr.len() && fr[i] == x;
                        assert(fr.push(last)[i] == x);
                    }
                }
            } else {
                assert(s.filter(pred) == fr);
                if fr.contains(x) {
                    assert(rest.contains(x));
                    let j = choose|j: int| 0 <= j < rest.len() && rest[j] == x;
                    assert(s[j] == x);
                }
                if s.contains(x) && pred(x) {
                    assert(x != last);
                    let j = choose|j: int| 0 <= j < s.len() && s[j] == x;
                    assert(j < rest.len() && rest[j] == x);
                    assert(rest.contains(x));
                }
            }
        }
        if pred(last) {
            assert(s.filter(pred) == fr.push(last));
            assert(!fr.contains(last));
            assert(fr.push(last).no_duplicates()) by {
                assert(forall|i: int| 0 <= i < fr.len() ==> fr.push(last)[i] == fr[i]);
            }
        }
    }
}

/// The scheduler's mutable state.
pub struct Scheduler {
    /// Unmet parent counts of the reaches not yet released.
    pub pending: HashMap<u32, usize>,
    /// Released reaches not yet handed to a worker, front first.
    pub ready: VecDeque<u32>,
    /// Completed reaches, in completion order.
    pub completed: Vec<u32>,
    /// Reaches handed out so far.
    pub dispatched: Ghost<Set<u32>>,
    /// The next worker inbox, round robin.
    pub next_worker: usize,
    pub num_workers: usize,
    /// How many reaches there are in all.
    pub total: usize,
    /// The graph this scheduler serves.
    pub topo: Ghost<Map<u32, NetworkNode>>,
}

impl Scheduler {
    pub open spec fn wf(self) -> bool {
        let m = self.topo@;
        &&& m.dom().finite()
        &&& self.total == m.dom().len()
        &&& self.num_workers >= 1
        &&& self.next_worker < self.num_workers
        &&& self.completed@.no_duplicates()
        &&& forall|x: u32| #[trigger] self.completed@.contains(x) ==> self.dispatched@.contains(x)
        &&& self.dispatched@.subset_of(m.dom())
        &&& self.dispatched@.finite()
        &&& self.ready@.no_duplicates()
        &&& forall|x: u32| #[trigger]
            self.ready@.contains(x) ==> m.contains_key(x) && !self.dispatched@.contains(x)
        &&& forall|x: u32| #[trigger]
            self.ready@.contains(x) ==> parents_of(m, x).subset_of(self.completed@.to_set())
        &&& forall|x: u32| #[trigger]
            self.dispatched@.contains(x) ==> parents_of(m, x).subset_of(self.completed@.to_set())
        &&& forall|v: u32| #[trigger]
            m.contains_key(v) ==> (self.pending@.contains_key(v) <==> (!self.ready@.contains(v)
                && !self.dispatched@.contains(v)))
        &&& self.pending@.dom().subset_of(m.dom())
        &&& forall|v: u32| #[trigger]
            self.pending@.contains_key(v) ==> self.pending@[v] == remaining_parents(
                m,
                v,
                self.completed@.to_set(),
            ).len() && self.pending@[v] >= 1
    }

    /// Set up the counts and seed the ready queue with the parentless
    /// reaches, in routing order.
    pub fn new(topo: &NetworkTopology, num_workers: usize) -> (s: Scheduler)
        requires
            topo.wf(),
            topo.upstreams_built(),
            topo.order_valid(),
            num_workers >= 1,
        ensures
            s.wf(),
            s.topo@ == topo.nodes@,
            s.completed@ == Seq::<u32>::empty(),
            s.dispatched@ == Set::<u32>::empty(),
            s.total == topo.nodes@.dom().len(),
            s.num_workers == num_workers,
            s.ready@.no_duplicates(),
            forall|x: u32|
                #![trigger s.ready@.contains(x)]
                s.ready@.contains(x) <==> (topo.nodes@.contains_key(x) && is_root(
                    topo.nodes@,
                    x,
                )),
    {
        let ghost m = topo.nodes@;
        let ghost order = topo.routing_order@;
        let ghost rootp = |v: u32| is_root(topo.nodes@, v);
        let n = topo.routing_order.len();
        let mut pending: HashMap<u32, usize> = HashMap::new();
        let mut ready: VecDeque<u32> = VecDeque::new();

        let mut k: usize = 0;
        while k < n
            invariant
                0 <= k <= n,
                n == order.len(),
                topo.wf(),
                topo.upstreams_built(),
                topo.order_valid(),
                topo.nodes@ == m,
                topo.routing_order@ == order,
                rootp == (|v: u32| is_root(topo.nodes@, v)),
                ready@ == order.take(k as int).filter(rootp),
                forall|v: u32| #[trigger]
                    pending@.contains_key(v) <==> (order.take(k as int).contains(v) && !is_root(
                        m,
                        v,
                    )),
                forall|v: u32| #[trigger]
                    pending@.contains_key(v) ==> pending@[v] == parents_of(m, v).len()
                        && pending@[v] >= 1,
            decreases n - k,
        {
            let v = topo.routing_order[k];
            proof {
                assert(order[k as int] == v);
                assert(order.contains(v));
                assert(order.to_set().contains(v));
                assert(m.contains_key(v));
                lemma_upstream_count(*topo, v);
                lemma_root_iff(m, v);
                assert(order.take(k as int).push(v) =~= order.take(k as int + 1));
            }
            let count = match topo.nodes.get(&v) {
                Some(node) => node.upstream_ids.len(),
                None => 0,
            };
            proof {
                assert(count == parents_of(m, v).len());
            }
            let ghost ready_entry = ready@;
            if count == 0 {
                ready.push_back(v);
            } else {
                pending.insert(v, count);
            }
            proof {
                reveal(Seq::filter);
                assert(order.take(k as int + 1).drop_last() =~= order.take(k as int));
                assert(order.take(k as int + 1).last() == v);
                if count == 0 {
                    assert(rootp(v));
                    assert(ready@ == order.take(k as int + 1).filter(rootp));
                } else {
                    assert(!rootp(v));
                    assert(ready@ == order.take(k as int + 1).filter(rootp));
                }
                let ghost t0 = order.take(k as int);
                let ghost t1 = order.take(k as int + 1);
                assert forall|w: u32| #[trigger]
                    pending@.contains_key(w) <==> (order.take(k as int + 1).contains(w)
                        && !is_root(m, w)) by {
                    lemma_root_iff(m, w);
                    if t1.contains(w) {
                        let i = choose|i: int| 0 <= i < t1.len() && t1[i] == w;
                        if i < k {
                            assert(t0[i] == w);
                            assert(t0.contains(w));
                        }
                    }
                    if t0.contains(w) {
                        let i = choose|i: int| 0 <= i < t0.len() && t0[i] == w;
                        assert(t1[i] == w);
                    }
                }
            }
            k += 1;
        }
        proof {
            assert(order.take(n as int) =~= order);
        }
        let s = Scheduler {
            pending,
            ready,
            completed: Vec::new(),
            dispatched: Ghost(Set::empty()),
            next_worker: 0,
            num_workers,
            total: topo.routing_order.len(),
            topo: Ghost(topo.nodes@),
        };
        proof {
            order.unique_seq_to_set();
            assert(s.total == m.dom().len());
            lemma_filter_distinct(order, rootp);
            assert(s.completed@ =~= Seq::<u32>::empty());
            assert(s.completed@.to_set() =~= Set::<u32>::empty());
            assert forall|x: u32| #[trigger] s.ready@.contains(x) implies m.contains_key(x)
                && !s.dispatched@.contains(x) by {
                assert(order.contains(x));
                assert(order.to_set().contains(x));
            }
            assert forall|x: u32| #[trigger] s.ready@.contains(x) implies parents_of(
                m,
                x,
            ).subset_of(s.completed@.to_set()) by {
                lemma_root_iff(m, x);
                lemma_parents_finite(m, x);
                assert(parents_of(m, x).len() == 0);
                parents_of(m, x).lemma_len0_is_empty();
            }
            assert forall|v: u32| #[trigger] m.contains_key(v) implies (s.pending@.contains_key(v)
                <==> (!s.ready@.contains(v) && !s.dispatched@.contains(v))) by {
                assert(order.to_set().contains(v));
                assert(order.contains(v));
                lemma_root_iff(m, v);
            }
            assert forall|v: u32| #[trigger] s.pending@.contains_key(v) implies s.pending@[v]
                == remaining_parents(m, v, s.completed@.to_set()).len() && s.pending@[v] >= 1 by {
                assert(remaining_parents(m, v, s.completed@.to_set()) =~= parents_of(m, v));
            }
            assert(s.pending@.dom().subset_of(m.dom())) by {
                assert forall|v: u32| #[trigger] s.pending@.dom().contains(v) implies m.dom().contains(
                    v,
                ) by {
                    assert(order.contains(v));
                    assert(order.to_set().contains(v));
                }
            }
        }
        s
    }

    /// Hand out the next ready reach, round robin over the workers.
    /// Every parent of the returned reach has completed, and no reach
    /// is handed out twice.
    pub fn next_node(&mut self) -> (r: Option<(u32, usize)>)
        requires
            old(self).wf(),
        ensures
            final(self).wf(),
            final(self).topo == old(self).topo,
            final(self).completed == old(self).completed,
            final(self).total == old(self).total,
            final(self).num_workers == old(self).num_workers,
            final(self).pending == old(self).pending,
            match r {
                None => final(self).ready@ == old(self).ready@ && final(self).dispatched
                    == old(self).dispatched && final(self).next_worker == old(self).next_worker
                    && old(self).ready@.len() == 0,
                Some((v, w)) => {
                    &&& old(self).ready@.len() > 0
                    &&& v == old(self).ready@[0]
                    &&& final(self).ready@ == old(self).ready@.subrange(
                        1,
                        old(self).ready@.len() as int,
                    )
                    &&& final(self).dispatched@ == old(self).dispatched@.insert(v)
                    &&& !old(self).dispatched@.contains(v)
                    &&& !old(self).completed@.contains(v)
                    &&& old(self).topo@.contains_key(v)
                    &&& parents_of(old(self).topo@, v).subset_of(old(self).completed@.to_set())
                    &&& w == old(self).next_worker
                    &&& w < old(self).num_workers
                    &&& final(self).next_worker == ((w + 1) as int % old(self).num_workers as int)
                },
            },
    {
        let ghost m = self.topo@;
        let ghost ready_entry = self.ready@;
        match self.ready.pop_front() {
            None => None,
            Some(v) => {
                let w = self.next_worker;
                self.next_worker = (w + 1) % self.num_workers;
                proof {
                    assert(ready_entry.contains(v)) by {
                        assert(ready_entry[0] == v);
                    }
                }
                self.dispatched = Ghost(self.dispatched@.insert(v));
                proof {
                    let ready_new = self.ready@;
                    assert(ready_new == ready_entry.subrange(1, ready_entry.len() as int));
                    assert forall|x: u32| #[trigger] ready_new.contains(x) implies ready_entry.contains(
                        x,
                    ) && x != v by {
                        let i = choose|i: int| 0 <= i < ready_new.len() && ready_new[i] == x;
                        assert(ready_entry[i + 1] == x);
                        if x == v {
                            assert(ready_entry[0] == v);
                            assert(false);
                        }
                    }
                    assert forall|x: u32|
                        ready_entry.contains(x) && x != v implies #[trigger] ready_new.contains(
                        x,
                    ) by {
                        let i = choose|i: int| 0 <= i < ready_entry.len() && ready_entry[i] == x;
                        assert(i != 0);
                        assert(ready_new[i - 1] == x);
                    }
                    assert(ready_new.no_duplicates()) by {
                        assert(forall|i: int|
                            0 <= i < ready_new.len() ==> ready_new[i] == ready_entry[i + 1]);
                    }
                    if self.completed@.contains(v) {
                        assert(old(self).dispatched@.contains(v));
                        assert(false);
                    }
                    assert forall|x: u32| #[trigger] m.contains_key(x) implies (
                    self.pending@.contains_key(x) <==> (!self.ready@.contains(x)
                        && !self.dispatched@.contains(x))) by {
                        if x == v {
                            assert(self.dispatched@.contains(v));
                            assert(!old(self).pending@.contains_key(v));
                        }
                    }
                }
                Some((v, w))
            },
        }
    }

    /// Record that `v` finished: its output is written and its
    /// contribution has been added to its downstream buffer. Returns
    /// the downstream reach if this completion released it.
    pub fn complete(&mut self, v: u32, topo: &NetworkTopology) -> (released: Option<u32>)
        requires
            old(self).wf(),
            topo.wf(),
            topo.nodes@ == old(self).topo@,
            old(self).dispatched@.contains(v),
            !old(self).completed@.contains(v),
        ensures
            final(self).wf(),
            final(self).topo == old(self).topo,
            final(self).total == old(self).total,
            final(self).num_workers == old(self).num_workers,
            final(self).next_worker == old(self).next_worker,
            final(self).dispatched == old(self).dispatched,
            final(self).completed@ == old(self).completed@.push(v),
            match released {
                Some(d) => {
                    &&& old(self).topo@[v].downstream_id == Some(d)
                    &&& old(self).topo@.contains_key(d)
                    &&& !old(self).ready@.contains(d)
                    &&& !old(self).dispatched@.contains(d)
                    &&& remaining_parents(
                        old(self).topo@,
                        d,
                        final(self).completed@.to_set(),
                    ).len() == 0
                    &&& final(self).ready@ == old(self).ready@.push(d)
                },
                None => final(self).ready@ == old(self).ready@ && (forall|d: u32|
                    old(self).topo@[v].downstream_id == Some(d) && old(self).topo@.contains_key(d)
                        ==> remaining_parents(
                        old(self).topo@,
                        d,
                        final(self).completed@.to_set(),
                    ).len() != 0),
            },
    {
        let ghost m = self.topo@;
        let ghost comp_entry = self.completed@;
        let ghost cset_entry = comp_entry.to_set();
        self.completed.push(v);
        let ghost comp_new = self.completed@;
        let ghost cset_new = comp_new.to_set();
        proof {
            assert(comp_new == comp_entry.push(v));
            comp_entry.lemma_push_to_set_commute(v);
            assert(cset_new == cset_entry.insert(v));
            assert(comp_new.no_duplicates()) by {
                assert(forall|i: int|
                    0 <= i < comp_entry.len() ==> comp_new[i] == comp_entry[i]);
            }
            assert forall|x: u32| #[trigger] comp_new.contains(x) implies self.dispatched@.contains(
                x,
            ) by {
                if x != v {
                    let i = choose|i: int| 0 <= i < comp_new.len() && comp_new[i] == x;
                    assert(i < comp_entry.len());
                    assert(comp_entry[i] == x);
                    assert(comp_entry.contains(x));
                }
            }
            // Anything already released keeps all parents completed.
            assert forall|x: u32| #[trigger] self.ready@.contains(x) implies parents_of(
                m,
                x,
            ).subset_of(cset_new) by {
                assert(parents_of(m, x).subset_of(cset_entry));
            }
            assert forall|x: u32| #[trigger] self.dispatched@.contains(x) implies parents_of(
                m,
                x,
            ).subset_of(cset_new) by {
                assert(parents_of(m, x).subset_of(cset_entry));
            }
        }
        let down = match topo.nodes.get(&v) {
            Some(node) => node.downstream_id,
            None => None,
        };
        proof {
            assert(m.contains_key(v));
            assert(down == m[v].downstream_id);
        }
        let mut released: Option<u32> = None;
        if let Some(d) = down {
            let cur = match self.pending.get(&d) {
                Some(c) => Some(*c),
                None => None,
            };
            if let Some(c) = cur {
                proof {
                    assert(self.pending@.contains_key(d));
                    assert(m.dom().contains(d));
                    assert(is_parent(m, v, d));
                    assert(!cset_entry.contains(v)) by {
                        if comp_entry.contains(v) {
                            assert(false);
                        }
                    }
                    assert(remaining_parents(m, d, cset_entry).contains(v));
                    assert(c == remaining_parents(m, d, cset_entry).len());
                    lemma_parents_finite(m, d);
                    lemma_len_subset(remaining_parents(m, d, cset_entry), parents_of(m, d));
                    if c == 0 {
                        remaining_parents(m, d, cset_entry).lemma_len0_is_empty();
                        assert(false);
                    }
                    assert(remaining_parents(m, d, cset_new) =~= remaining_parents(
                        m,
                        d,
                        cset_entry,
                    ).remove(v));
                    assert(remaining_parents(m, d, cset_new).len() == c - 1);
                }
                let ghost ready_entry = self.ready@;
                if c - 1 == 0 {
                    self.pending.remove(&d);
                    self.ready.push_back(d);
                    released = Some(d);
                    proof {
                        assert(self.ready@ == ready_entry.push(d));
                        assert(!ready_entry.contains(d) && !self.dispatched@.contains(d)) by {
                            assert(self.pending@ == old(self).pending@.remove(d));
                            assert(old(self).pending@.contains_key(d));
                        }
                        assert(self.ready@.no_duplicates()) by {
                            assert(forall|i: int|
                                0 <= i < ready_entry.len() ==> self.ready@[i] == ready_entry[i]);
                        }
                        assert(remaining_parents(m, d, cset_new).len() == 0);
                        remaining_parents(m, d, cset_new).lemma_len0_is_empty();
                        assert(parents_of(m, d).subset_of(cset_new)) by {
                            assert forall|q: u32| #[trigger] parents_of(m, d).contains(q) implies cset_new.contains(
                                q,
                            ) by {
                                if !cset_new.contains(q) {
                                    assert(remaining_parents(m, d, cset_new).contains(q));
                                }
                            }
                        }
                        assert forall|x: u32| #[trigger] self.ready@.contains(x) implies m.contains_key(
                            x,
                        ) && !self.dispatched@.contains(x) by {
                            if x != d {
                                let i = choose|i: int|
                                    0 <= i < self.ready@.len() && self.ready@[i] == x;
                                assert(i < ready_entry.len());
                                assert(ready_entry[i] == x);
                                assert(ready_entry.contains(x));
                            }
                        }
                        assert forall|x: u32| #[trigger] self.ready@.contains(x) implies parents_of(
                            m,
                            x,
                        ).subset_of(cset_new) by {
                            if x != d {
                                let i = choose|i: int|
                                    0 <= i < self.ready@.len() && self.ready@[i] == x;
                                assert(i < ready_entry.len());
                                assert(ready_entry[i] == x);
                                assert(ready_entry.contains(x));
                            }
                        }
                        assert forall|x: u32| #[trigger] m.contains_key(x) implies (
                        self.pending@.contains_key(x) <==> (!self.ready@.contains(x)
                            && !self.dispatched@.contains(x))) by {
                            if x == d {
                                assert(self.ready@.contains(d)) by {
                                    assert(self.ready@[self.ready@.len() - 1] == d);
                                }
                            } else {
                                assert(self.ready@.contains(x) <==> ready_entry.contains(x)) by {
                                    if self.ready@.contains(x) {
                                        let i = choose|i: int|
                                            0 <= i < self.ready@.len() && self.ready@[i] == x;
                                        assert(i < ready_entry.len());
                                        assert(ready_entry[i] == x);
                                    }
                                    if ready_entry.contains(x) {
                                        let i = choose|i: int|
                                            0 <= i < ready_entry.len() && ready_entry[i] == x;
                                        assert(self.ready@[i] == x);
                                    }
                                }
                            }
                        }
                        assert forall|x: u32| #[trigger] self.pending@.contains_key(x) implies
                            self.pending@[x] == remaining_parents(m, x, cset_new).len()
                            && self.pending@[x] >= 1 by {
                            assert(x != d);
                            assert(remaining_parents(m, x, cset_new) =~= remaining_parents(
                                m,
                                x,
                                cset_entry,
                            )) by {
                                if is_parent(m, v, x) {
                                    assert(m[v].downstream_id == Some(x));
                                    assert(x == d);
                                }
                            }
                        }
                    }
                } else {
                    self.pending.insert(d, c - 1);
                    proof {
                        assert forall|x: u32| #[trigger] m.contains_key(x) implies (
                        self.pending@.contains_key(x) <==> (!self.ready@.contains(x)
                            && !self.dispatched@.contains(x))) by {}
                        assert forall|x: u32| #[trigger] self.pending@.contains_key(x) implies
                            self.pending@[x] == remaining_parents(m, x, cset_new).len()
                            && self.pending@[x] >= 1 by {
                            if x != d {
                                assert(remaining_parents(m, x, cset_new) =~= remaining_parents(
                                    m,
                                    x,
                                    cset_entry,
                                )) by {
                                    if is_parent(m, v, x) {
                                        assert(m[v].downstream_id == Some(x));
                                        assert(x == d);
                                    }
                                }
                            }
                        }
                    }
                }
            } else {
                proof {
                    if m.contains_key(d) {
                        // d cannot be released yet: v is an unmet parent
                        assert(!self.pending@.contains_key(d));
                        assert(self.ready@.contains(d) || self.dispatched@.contains(d));
                        assert(parents_of(m, d).subset_of(cset_entry));
                        assert(is_parent(m, v, d));
                        assert(parents_of(m, d).contains(v));
                        assert(cset_entry.contains(v));
                        assert(comp_entry.contains(v));
                        assert(false);
                    }
                    assert forall|x: u32| #[trigger] self.pending@.contains_key(x) implies
                        self.pending@[x] == remaining_parents(m, x, cset_new).len()
                        && self.pending@[x] >= 1 by {
                        assert(remaining_parents(m, x, cset_new) =~= remaining_parents(
                            m,
                            x,
                            cset_entry,
                        )) by {
                            if is_parent(m, v, x) {
                                assert(m[v].downstream_id == Some(x));
                                assert(m.contains_key(x));
                                assert(false);
                            }
                        }
                    }
                }
            }
        } else {
            proof {
                assert forall|x: u32| #[trigger] self.pending@.contains_key(x) implies
                    self.pending@[x] == remaining_parents(m, x, cset_new).len() && self.pending@[x]
                    >= 1 by {
                    assert(remaining_parents(m, x, cset_new) =~= remaining_parents(
                        m,
                        x,
                        cset_entry,
                    )) by {
                        if is_parent(m, v, x) {
                            assert(m[v].downstream_id == Some(x));
                            assert(false);
                        }
                    }
                }
            }
        }
        released
    }

    /// Whether every reach has completed.
    pub fn is_done(&self) -> (r: bool)
        ensures
            r <==> self.completed@.len() == self.total,
    {
        self.completed.len() == self.total
    }

    /// The reaches completed so far, in completion order.
    pub fn completed_nodes(&self) -> (r: &Vec<u32>)
        ensures
            r@ == self.completed@,
    {
        &self.completed
    }
}

} // verus!
