//! Network topology: the directed acyclic graph of reaches.
//!
//! Every reach has at most one downstream reach; the upstream lists are
//! derived by inverting the downstream pointers. A routing order — a
//! topological linearization in which every parent precedes its child —
//! is computed once by Kahn's algorithm. Construction fails exactly on
//! networks that contain a cycle.

use vstd::prelude::*;
use vstd::seq_lib::*;
use vstd::set_lib::lemma_len_subset;
use std::collections::HashMap;
use std::collections::VecDeque;

verus! {

broadcast use vstd::std_specs::hash::group_hash_axioms;

/// One reach of the network.
#[derive(Debug)]
pub struct NetworkNode {
    pub id: u32,
    pub downstream_id: Option<u32>,
    pub upstream_ids: Vec<u32>,
}

impl NetworkNode {
    pub fn new(id: u32, downstream_id: Option<u32>) -> (n: NetworkNode)
        ensures
            n.id == id,
            n.downstream_id == downstream_id,
            n.upstream_ids@ == Seq::<u32>::empty(),
    {
        NetworkNode { id, downstream_id, upstream_ids: Vec::new() }
    }
}

/// `p` drains directly into `v`.
pub open spec fn is_parent(m: Map<u32, NetworkNode>, p: u32, v: u32) -> bool {
    m.contains_key(p) && m[p].downstream_id == Some(v)
}

/// All reaches that drain directly into `v`.
pub open spec fn parents_of(m: Map<u32, NetworkNode>, v: u32) -> Set<u32> {
    Set::new(|p: u32| is_parent(m, p, v))
}

pub open spec fn has_parent_in(m: Map<u32, NetworkNode>, s: Set<u32>, v: u32) -> bool {
    exists|p: u32| s.contains(p) && is_parent(m, p, v)
}

/// A finite directed graph is acyclic exactly when every nonempty set
/// of its nodes contains a node with no parent inside the set.
pub open spec fn acyclic(m: Map<u32, NetworkNode>) -> bool {
    forall|s: Set<u32>|
        #![trigger s.subset_of(m.dom())]
        s.subset_of(m.dom()) && (exists|v: u32| s.contains(v)) ==> exists|v: u32|
            s.contains(v) && !has_parent_in(m, s, v)
}

/// Every parent stands before its child in the order.
pub open spec fn parents_before(m: Map<u32, NetworkNode>, order: Seq<u32>) -> bool {
    forall|i: int, j: int|
        #![trigger order[i], order[j]]
        0 <= i < order.len() && 0 <= j < order.len() && m.contains_key(order[i])
            && m[order[i]].downstream_id == Some(order[j]) ==> i < j
}

/// Why topology construction failed.
#[derive(Clone, Copy, Debug, PartialEq, Eq, Structural)]
pub enum TopologyError {
    /// A database key did not have the form `<prefix>-<decimal id>`.
    InvalidKey,
    /// No reach is without parents, so the network has no entry point.
    NoHeadwaters,
    /// The routing order covered only `processed` of the `total` reaches.
    Cycle { processed: usize, total: usize },
}

/// The reach graph together with its routing order.
#[derive(Debug)]
pub struct NetworkTopology {
    /// Every reach id, in insertion order.
    pub ids: Vec<u32>,
    pub nodes: HashMap<u32, NetworkNode>,
    /// Filled by `topological_sort`.
    pub routing_order: Vec<u32>,
}

impl NetworkTopology {
    /// The nodes and the id list agree and every node knows its own id.
    pub open spec fn wf(self) -> bool {
        &&& self.ids@.no_duplicates()
        &&& self.nodes@.dom() == self.ids@.to_set()
        &&& self.nodes@.dom().finite()
        &&& forall|v: u32| #[trigger]
            self.nodes@.contains_key(v) ==> self.nodes@[v].id == v
    }

    /// Every reach's upstream list holds exactly its parents, in id
    /// order.
    pub open spec fn upstreams_built(self) -> bool {
        forall|v: u32| #[trigger]
            self.nodes@.contains_key(v) ==> self.nodes@[v].upstream_ids@ == upstreams_in(
                self.ids@,
                self.nodes@,
                v,
            )
    }

    /// The routing order lists every reach exactly once, parents first.
    pub open spec fn order_valid(self) -> bool {
        &&& self.routing_order@.no_duplicates()
        &&& self.routing_order@.to_set() == self.nodes@.dom()
        &&& parents_before(self.nodes@, self.routing_order@)
    }

    pub fn new() -> (t: NetworkTopology)
        ensures
            t.wf(),
            t.ids@ == Seq::<u32>::empty(),
            t.nodes@ == Map::<u32, NetworkNode>::empty(),
            t.routing_order@ == Seq::<u32>::empty(),
    {
        let t = NetworkTopology { ids: Vec::new(), nodes: HashMap::new(), routing_order: Vec::new() };
        proof {
            assert(t.ids@.to_set() =~= Set::<u32>::empty());
            assert(t.nodes@.dom() =~= Set::<u32>::empty());
        }
        t
    }

    /// Insert one reach. A reach already present is replaced; its
    /// position in the id list is kept.
    pub fn add_node(&mut self, id: u32, downstream_id: Option<u32>)
        requires
            old(self).wf(),
        ensures
            final(self).wf(),
            final(self).nodes@ == old(self).nodes@.insert(id, final(self).nodes@[id]),
            final(self).nodes@.contains_key(id),
            final(self).nodes@[id].id == id,
            final(self).nodes@[id].downstream_id == downstream_id,
            final(self).nodes@[id].upstream_ids@ == Seq::<u32>::empty(),
            old(self).ids@.to_set().contains(id) ==> final(self).ids@ == old(self).ids@,
            !old(self).ids@.to_set().contains(id) ==> final(self).ids@ == old(self).ids@.push(id),
            final(self).routing_order == old(self).routing_order,
    {
        let node = NetworkNode::new(id, downstream_id);
        if !self.nodes.contains_key(&id) {
            proof {
                assert(!self.ids@.to_set().contains(id));
            }
            self.ids.push(id);
            proof {
                self.ids@.drop_last().lemma_push_to_set_commute(id);
                assert(self.ids@.drop_last() =~= old(self).ids@);
                assert(self.ids@ =~= old(self).ids@.push(id));
                assert(self.ids@.to_set() =~= old(self).ids@.to_set().insert(id));
            }
        }
        self.nodes.insert(id, node);
        proof {
            assert(self.nodes@.dom() =~= self.ids@.to_set());
        }
    }

    /// Derive every reach's upstream list by inverting the downstream
    /// pointers. A reach's parents appear in the order of the id list.
    pub fn build_upstream_connections(&mut self)
        requires
            old(self).wf(),
        ensures
            final(self).wf(),
            final(self).ids == old(self).ids,
            final(self).routing_order == old(self).routing_order,
            final(self).nodes@.dom() == old(self).nodes@.dom(),
            forall|v: u32| #[trigger]
                final(self).nodes@.contains_key(v) ==> final(self).nodes@[v].downstream_id == old(
                    self,
                ).nodes@[v].downstream_id,
            forall|v: u32| #[trigger]
                final(self).nodes@.contains_key(v) ==> final(self).nodes@[v].upstream_ids@
                    == upstreams_in(old(self).ids@, old(self).nodes@, v),
            final(self).upstreams_built(),
    {
        let ghost m0 = old(self).nodes@;
        let ghost idseq = old(self).ids@;
        let n = self.ids.len();

        // First pass: group the parents of each reach, in id order.
        let mut um: HashMap<u32, Vec<u32>> = HashMap::new();
        let mut k: usize = 0;
        while k < n
            invariant
                0 <= k <= n,
                n == idseq.len(),
                self == old(self),
                self.wf(),
                self.ids@ == idseq,
                self.nodes@ == m0,
                forall|d: u32|
                    #![trigger um@.contains_key(d)]
                    #![trigger um@[d]]
                    um@.contains_key(d) ==> um@[d]@ == upstreams_in(idseq.take(k as int), m0, d),
                forall|d: u32|
                    #![trigger um@.contains_key(d)]
                    !um@.contains_key(d) ==> upstreams_in(idseq.take(k as int), m0, d)
                        == Seq::<u32>::empty(),
            decreases n - k,
        {
            let p = self.ids[k];
            proof {
                assert(idseq.to_set().contains(p));
            }
            let node = self.nodes.get(&p);
            let down = match node {
                Some(node) => node.downstream_id,
                None => None,
            };
            proof {
                assert(m0.contains_key(p));
                assert(down == m0[p].downstream_id);
            }
            if let Some(d) = down {
                let mut vec = match um.remove(&d) {
                    Some(vec) => vec,
                    None => Vec::new(),
                };
                proof {
                    lemma_upstreams_push(idseq.take(k as int), m0, d, p);
                    assert(idseq.take(k as int).push(p) =~= idseq.take(k as int + 1));
                    assert(vec@.push(p) =~= upstreams_in(idseq.take(k as int + 1), m0, d));
                }
                vec.push(p);
                um.insert(d, vec);
                proof {
                    assert forall|e: u32|
                        #![trigger um@.contains_key(e)]
                        e != d implies upstreams_in(idseq.take(k as int + 1), m0, e)
                        == upstreams_in(idseq.take(k as int), m0, e) by {
                        lemma_upstreams_push(idseq.take(k as int), m0, e, p);
                        assert(idseq.take(k as int).push(p) =~= idseq.take(k as int + 1));
                    }
                }
            } else {
                proof {
                    assert forall|e: u32|
                        #![trigger um@.contains_key(e)]
                        true implies upstreams_in(idseq.take(k as int + 1), m0, e) == upstreams_in(
                        idseq.take(k as int),
                        m0,
                        e,
                    ) by {
                        lemma_upstreams_push(idseq.take(k as int), m0, e, p);
                        assert(idseq.take(k as int).push(p) =~= idseq.take(k as int + 1));
                    }
                }
            }
            k += 1;
        }
        proof {
            assert(idseq.take(n as int) =~= idseq);
        }

        // Second pass: hand each reach its parent list.
        let mut k: usize = 0;
        while k < n
            invariant
                0 <= k <= n,
                n == idseq.len(),
                self.ids == old(self).ids,
                self.ids@ == idseq,
                self.routing_order == old(self).routing_order,
                self.wf(),
                self.nodes@.dom() == m0.dom(),
                forall|v: u32| #[trigger]
                    self.nodes@.contains_key(v) ==> self.nodes@[v].downstream_id
                        == m0[v].downstream_id,
                forall|j: int|
                    0 <= j < k ==> #[trigger] self.nodes@[idseq[j]].upstream_ids@ == upstreams_in(
                        idseq,
                        m0,
                        idseq[j],
                    ),
                forall|j: int|
                    k <= j < n ==> #[trigger] self.nodes@[idseq[j]] == m0[idseq[j]],
                forall|d: u32|
                    #![trigger um@.contains_key(d)]
                    um@.contains_key(d) ==> um@[d]@ == upstreams_in(idseq, m0, d),
                forall|d: u32|
                    #![trigger um@.contains_key(d)]
                    !um@.contains_key(d) ==> upstreams_in(idseq, m0, d) == Seq::<u32>::empty()
                        || idseq.take(k as int).contains(d),
            decreases n - k,
        {
            let v = self.ids[k];
            let ghost nodes_entry = self.nodes@;
            let ghost um_entry = um@;
            proof {
                assert(idseq[k as int] == v);
                assert(idseq.to_set().contains(v));
                assert(self.nodes@.contains_key(v));
            }
            let up = match um.remove(&v) {
                Some(vec) => vec,
                None => Vec::new(),
            };
            proof {
                if up@ != upstreams_in(idseq, m0, v) {
                    // The bucket was consumed earlier: impossible, ids
                    // have no duplicates.
                    assert(!um_entry.contains_key(v));
                    assert(idseq.take(k as int).contains(v));
                    let j = choose|j: int| 0 <= j < k && idseq.take(k as int)[j] == v;
                    assert(idseq[j] == v && idseq[k as int] == v && j != k);
                    assert(false);
                }
                assert(um@ == um_entry.remove(v));
            }
            let mut node = match self.nodes.remove(&v) {
                Some(node) => node,
                None => NetworkNode::new(v, None),
            };
            node.upstream_ids = up;
            self.nodes.insert(v, node);
            proof {
                assert(self.nodes@ == nodes_entry.remove(v).insert(v, node));
                assert(self.nodes@.dom() =~= m0.dom());
                assert forall|j: int| 0 <= j < k + 1 implies #[trigger] self.nodes@[idseq[j]].upstream_ids@
                    == upstreams_in(idseq, m0, idseq[j]) by {
                    if idseq[j] == v {
                        if j < k {
                            assert(idseq[j] != idseq[k as int]);
                            assert(false);
                        }
                        assert(self.nodes@[v] == node);
                    } else {
                        assert(self.nodes@[idseq[j]] == nodes_entry[idseq[j]]);
                    }
                }
                assert forall|d: u32|
                    #![trigger um@.contains_key(d)]
                    !um@.contains_key(d) implies upstreams_in(idseq, m0, d) == Seq::<u32>::empty()
                    || idseq.take(k as int + 1).contains(d) by {
                    if d == v {
                        assert(idseq.take(k as int + 1)[k as int] == v);
                        assert(idseq.take(k as int + 1).contains(v));
                    } else {
                        assert(!um_entry.contains_key(d));
                        if idseq.take(k as int).contains(d) {
                            let i = choose|i: int|
                                0 <= i < k && idseq.take(k as int)[i] == d;
                            assert(idseq.take(k as int + 1)[i] == d);
                            assert(idseq.take(k as int + 1).contains(d));
                        }
                    }
                }
            }
            k += 1;
        }
        proof {
            assert forall|v: u32| #[trigger] self.nodes@.contains_key(v) implies self.nodes@[v].upstream_ids@
                == upstreams_in(idseq, m0, v) by {
                assert(idseq.to_set().contains(v));
                let j = choose|j: int| 0 <= j < idseq.len() && idseq[j] == v;
                assert(self.nodes@[idseq[j]].upstream_ids@ == upstreams_in(idseq, m0, idseq[j]));
            }
            assert forall|v: u32| #[trigger] self.nodes@.contains_key(v) implies self.nodes@[v].upstream_ids@
                == upstreams_in(self.ids@, self.nodes@, v) by {
                lemma_upstreams_same(idseq, m0, self.nodes@, v);
            }
        }
    }

    /// How many parents each reach has.
    fn count_parents(&self) -> (degree: HashMap<u32, usize>)
        requires
            self.wf(),
        ensures
            degree@.dom() == self.nodes@.dom(),
            forall|v: u32| #[trigger]
                degree@.contains_key(v) ==> degree@[v] == parents_of(self.nodes@, v).len(),
    {
        let ghost m = self.nodes@;
        let ghost idseq = self.ids@;
        let n = self.ids.len();

        let mut degree: HashMap<u32, usize> = HashMap::new();
        let mut k: usize = 0;
        while k < n
            invariant
                0 <= k <= n,
                n == idseq.len(),
                self.wf(),
                self.ids@ == idseq,
                self.nodes@ == m,
                forall|v: u32| #[trigger]
                    degree@.contains_key(v) <==> idseq.take(k as int).to_set().contains(v),
                forall|v: u32| #[trigger] degree@.contains_key(v) ==> degree@[v] == 0,
            decreases n - k,
        {
            let v = self.ids[k];
            degree.insert(v, 0);
            proof {
                assert(idseq.take(k as int).push(v) =~= idseq.take(k as int + 1));
                idseq.take(k as int).lemma_push_to_set_commute(v);
                assert(idseq.take(k as int + 1).to_set() == idseq.take(k as int).to_set().insert(
                    v,
                ));
            }
            k += 1;
        }
        proof {
            assert(idseq.take(n as int) =~= idseq);
            assert(degree@.dom() =~= m.dom()) by {
                assert(forall|v: u32|
                    #[trigger] degree@.contains_key(v) <==> idseq.take(n as int).to_set().contains(
                        v,
                    ));
            }
            assert forall|v: u32| #[trigger] degree@.contains_key(v) implies degree@[v]
                == parents_in_set(idseq.take(0).to_set(), m, v).len() by {
                assert(idseq.take(0).to_set() =~= Set::<u32>::empty());
                assert(parents_in_set(idseq.take(0).to_set(), m, v) =~= Set::<u32>::empty());
            }
        }

        // Count each reach's edge at its downstream reach.
        let mut k: usize = 0;
        while k < n
            invariant
                0 <= k <= n,
                n == idseq.len(),
                self.wf(),
                self.ids@ == idseq,
                self.nodes@ == m,
                degree@.dom() == m.dom(),
                forall|v: u32| #[trigger]
                    degree@.contains_key(v) ==> degree@[v] == parents_in_set(
                        idseq.take(k as int).to_set(),
                        m,
                        v,
                    ).len(),
            decreases n - k,
        {
            let p = self.ids[k];
            let ghost s0 = idseq.take(k as int).to_set();
            let ghost s1 = idseq.take(k as int + 1).to_set();
            proof {
                assert(idseq.take(k as int).push(p) =~= idseq.take(k as int + 1));
                idseq.take(k as int).lemma_push_to_set_commute(p);
                assert(s1 == s0.insert(p));
                assert(!s0.contains(p)) by {
                    if idseq.take(k as int).contains(p) {
                        let i = choose|i: int| 0 <= i < k && idseq.take(k as int)[i] == p;
                        assert(idseq[i] == idseq[k as int]);
                        assert(false);
                    }
                }
                assert(idseq.to_set().contains(p));
            }
            let down = match self.nodes.get(&p) {
                Some(node) => node.downstream_id,
                None => None,
            };
            proof {
                assert(m.contains_key(p) && down == m[p].downstream_id);
            }
            let mut bumped: Option<u32> = None;
            if let Some(d) = down {
                let cur = match degree.get(&d) {
                    Some(c) => Some(*c),
                    None => None,
                };
                if let Some(c) = cur {
                    proof {
                        assert(degree@.contains_key(d));
                        assert(m.dom().contains(d));
                        lemma_parents_in_set_finite(s0, m, d);
                        assert(parents_in_set(s1, m, d) =~= parents_in_set(s0, m, d).insert(p));
                        assert(c < n) by {
                            lemma_len_subset(parents_in_set(s0, m, d), s0);
                            idseq.take(k as int).lemma_cardinality_of_set();
                        }
                    }
                    degree.insert(d, c + 1);
                    proof {
                        assert(degree@[d] == parents_in_set(s1, m, d).len());
                    }
                    bumped = Some(d);
                }
            }
            proof {
                assert forall|v: u32| #[trigger]
                    degree@.contains_key(v) && bumped != Some(v) implies parents_in_set(s1, m, v)
                    == parents_in_set(s0, m, v) by {
                    assert(parents_in_set(s1, m, v) =~= parents_in_set(s0, m, v)) by {
                        if is_parent(m, p, v) {
                            assert(m[p].downstream_id == Some(v));
                            assert(down == Some(v));
                            assert(bumped == Some(v));
                        }
                    }
                }
            }
            k += 1;
        }
        proof {
            assert(idseq.take(n as int) =~= idseq);
            assert forall|v: u32| #[trigger] degree@.contains_key(v) implies degree@[v]
                == parents_of(m, v).len() by {
                assert(parents_in_set(idseq.to_set(), m, v) =~= parents_of(m, v)) by {
                    assert forall|q: u32| is_parent(m, q, v) implies idseq.to_set().contains(
                        q,
                    ) by {
                        assert(m.dom().contains(q));
                    }
                }
            }
        }
        degree
    }

    /// The reaches with no parents, in id order.
    fn initial_roots(&self, degree: &HashMap<u32, usize>) -> (queue: VecDeque<u32>)
        requires
            self.wf(),
            degree@.dom() == self.nodes@.dom(),
            forall|v: u32| #[trigger]
                degree@.contains_key(v) ==> degree@[v] == parents_of(self.nodes@, v).len(),
        ensures
            queue@.no_duplicates(),
            forall|x: u32| #[trigger] queue@.contains(x) ==> self.nodes@.contains_key(x),
            forall|v: u32| #[trigger]
                self.nodes@.contains_key(v) ==> (queue@.contains(v) <==> parents_of(
                    self.nodes@,
                    v,
                ).len() == 0),
    {
        let ghost m = self.nodes@;
        let ghost idseq = self.ids@;
        let n = self.ids.len();
        let mut queue: VecDeque<u32> = VecDeque::new();
        let mut k: usize = 0;
        while k < n
            invariant
                0 <= k <= n,
                n == idseq.len(),
                self.wf(),
                self.ids@ == idseq,
                self.nodes@ == m,
                degree@.dom() == m.dom(),
                forall|v: u32| #[trigger]
                    degree@.contains_key(v) ==> degree@[v] == parents_of(m, v).len(),
                queue@.no_duplicates(),
                forall|x: u32| #[trigger]
                    queue@.contains(x) ==> m.contains_key(x) && idseq.take(
                        k as int,
                    ).to_set().contains(x),
                forall|v: u32| #[trigger]
                    idseq.take(k as int).to_set().contains(v) ==> (queue@.contains(v)
                        <==> parents_of(m, v).len() == 0),
            decreases n - k,
        {
            let v = self.ids[k];
            proof {
                assert(idseq.to_set().contains(v));
                assert(m.contains_key(v));
                assert(!idseq.take(k as int).to_set().contains(v)) by {
                    if idseq.take(k as int).contains(v) {
                        let i = choose|i: int|
                            0 <= i < idseq.take(k as int).len() && idseq.take(k as int)[i] == v;
                        assert(idseq[i] == idseq[k as int]);
                        assert(false);
                    }
                }
            }
            let deg = match degree.get(&v) {
                Some(c) => *c,
                None => 1,
            };
            proof {
                assert(degree@.contains_key(v));
                assert(deg == parents_of(m, v).len());
            }
            let ghost queue_entry = queue@;
            if deg == 0 {
                queue.push_back(v);
                proof {
                    assert(queue@ == queue_entry.push(v));
                    assert(queue@.no_duplicates()) by {
                        assert(!queue_entry.contains(v));
                        assert(forall|i: int|
                            0 <= i < queue_entry.len() ==> queue@[i] == queue_entry[i]);
                    }
                }
            }
            proof {
                assert(idseq.take(k as int).push(v) =~= idseq.take(k as int + 1));
                idseq.take(k as int).lemma_push_to_set_commute(v);
                assert forall|w: u32| #[trigger] queue@.contains(w) implies m.contains_key(w)
                    && idseq.take(k as int + 1).to_set().contains(w) by {
                    if w != v {
                        assert(queue_entry.contains(w)) by {
                            let i = choose|i: int| 0 <= i < queue@.len() && queue@[i] == w;
                            assert(i < queue_entry.len());
                            assert(queue_entry[i] == w);
                        }
                    }
                }
                assert forall|w: u32| #[trigger]
                    idseq.take(k as int + 1).to_set().contains(w) implies (queue@.contains(w)
                    <==> parents_of(m, w).len() == 0) by {
                    if w == v {
                        if deg == 0 {
                            assert(queue@[queue@.len() - 1] == v);
                            assert(queue@.contains(v));
                        } else {
                            if queue@.contains(v) {
                                let i = choose|i: int| 0 <= i < queue@.len() && queue@[i] == v;
                                assert(queue_entry[i] == v);
                                assert(false);
                            }
                        }
                    } else {
                        assert(idseq.take(k as int).to_set().contains(w));
                        if queue_entry.contains(w) {
                            let i = choose|i: int|
                                0 <= i < queue_entry.len() && queue_entry[i] == w;
                            assert(queue@[i] == w);
                        }
                        if queue@.contains(w) {
                            let i = choose|i: int| 0 <= i < queue@.len() && queue@[i] == w;
                            if i < queue_entry.len() {
                                assert(queue_entry[i] == w);
                            }
                        }
                    }
                }
            }
            k += 1;
        }
        proof {
            assert(idseq.take(n as int) =~= idseq);
        }
        queue
    }

    /// Compute the routing order by Kahn's algorithm.
    ///
    /// Succeeds exactly on nonempty acyclic networks; the order then
    /// lists every reach once, every parent before its child. A network
    /// in which every reach has a parent has no entry point; one whose
    /// order stays incomplete has a cycle.
    pub fn topological_sort(&mut self) -> (r: Result<(), TopologyError>)
        requires
            old(self).wf(),
        ensures
            final(self).wf(),
            final(self).ids == old(self).ids,
            final(self).nodes == old(self).nodes,
            match r {
                Ok(()) => final(self).order_valid() && final(self).routing_order@.len()
                    == final(self).ids@.len() && acyclic(final(self).nodes@),
                Err(TopologyError::NoHeadwaters) => forall|v: u32| #[trigger]
                    old(self).nodes@.contains_key(v) ==> parents_of(old(self).nodes@, v).len()
                        != 0,
                Err(TopologyError::Cycle { processed, total }) => !acyclic(old(self).nodes@)
                    && total == old(self).ids@.len() && processed < total,
                Err(TopologyError::InvalidKey) => false,
            },
            r is Ok <==> acyclic(old(self).nodes@) && old(self).ids@.len() > 0,
    {
        let ghost m = old(self).nodes@;
        let ghost idseq = old(self).ids@;
        let n = self.ids.len();

        let mut degree = self.count_parents();
        let mut queue = self.initial_roots(&degree);

        if queue.len() == 0 {
            proof {
                assert forall|v: u32| #[trigger] m.contains_key(v) implies parents_of(m, v).len()
                    != 0 by {
                    assert(!queue@.contains(v));
                }
                if acyclic(m) && idseq.len() > 0 {
                    assert(m.dom().contains(idseq[0])) by {
                        assert(idseq.contains(idseq[0]));
                    }
                    assert(m.dom().subset_of(m.dom()));
                    let v = choose|v: u32|
                        m.dom().contains(v) && !has_parent_in(m, m.dom(), v);
                    assert(parents_of(m, v).len() != 0);
                    if !(exists|p: u32| parents_of(m, v).contains(p)) {
                        assert(parents_of(m, v) =~= Set::<u32>::empty());
                        assert(false);
                    }
                    let p = choose|p: u32| parents_of(m, v).contains(p);
                    assert(m.dom().contains(p) && is_parent(m, p, v));
                    assert(has_parent_in(m, m.dom(), v));
                    assert(false);
                }
            }
            return Err(TopologyError::NoHeadwaters);
        }

        self.routing_order = Vec::new();
        proof {
            idseq.unique_seq_to_set();
            assert(m.dom().len() == n);
            assert(self.routing_order@ =~= Seq::<u32>::empty());
            assert forall|v: u32| #[trigger] m.contains_key(v) implies ((
            self.routing_order@.contains(v) || queue@.contains(v)) <==> remaining_parents(
                m,
                v,
                self.routing_order@.to_set(),
            ).len() == 0) by {
                assert(remaining_parents(m, v, self.routing_order@.to_set()) =~= parents_of(m, v));
            }
            assert forall|v: u32| #[trigger] degree@.contains_key(v) implies degree@[v]
                == remaining_parents(m, v, self.routing_order@.to_set()).len() by {
                assert(remaining_parents(m, v, self.routing_order@.to_set()) =~= parents_of(m, v));
            }
            assert(n > 0) by {
                assert(queue@.contains(queue@[0]));
                assert(m.contains_key(queue@[0]));
                assert(idseq.to_set().contains(queue@[0]));
                assert(idseq.contains(queue@[0]));
            }
        }

        while queue.len() > 0
            invariant
                n == idseq.len(),
                n > 0,
                m.dom().len() == n,
                self.wf(),
                self.ids == old(self).ids,
                self.nodes == old(self).nodes,
                self.ids@ == idseq,
                self.nodes@ == m,
                degree@.dom() == m.dom(),
                forall|v: u32| #[trigger]
                    degree@.contains_key(v) ==> degree@[v] == remaining_parents(
                        m,
                        v,
                        self.routing_order@.to_set(),
                    ).len(),
                self.routing_order@.no_duplicates(),
                forall|x: u32| #[trigger] self.routing_order@.contains(x) ==> m.contains_key(x),
                queue@.no_duplicates(),
                forall|x: u32| #[trigger]
                    queue@.contains(x) ==> m.contains_key(x) && !self.routing_order@.contains(x),
                forall|v: u32| #[trigger]
                    m.contains_key(v) ==> ((self.routing_order@.contains(v) || queue@.contains(v))
                        <==> remaining_parents(m, v, self.routing_order@.to_set()).len() == 0),
                parents_before(m, self.routing_order@),
                self.routing_order@.len() <= n,
            decreases n - self.routing_order@.len(),
        {
            let ghost queue_entry = queue@;
            let ghost ord_entry = self.routing_order@;
            let ghost p_entry = ord_entry.to_set();
            let cur = match queue.pop_front() {
                Some(cur) => cur,
                None => 0,
            };
            proof {
                assert(cur == queue_entry[0]);
                assert(queue_entry.contains(cur));
                assert(m.contains_key(cur));
                assert(!ord_entry.contains(cur));
                assert(remaining_parents(m, cur, p_entry).len() == 0);
                lemma_parents_finite(m, cur);
                lemma_len_subset(remaining_parents(m, cur, p_entry), parents_of(m, cur));
                remaining_parents(m, cur, p_entry).lemma_len0_is_empty();
            }
            self.routing_order.push(cur);
            let ghost ord_new = self.routing_order@;
            let ghost p_new = ord_new.to_set();
            proof {
                assert(ord_new == ord_entry.push(cur));
                ord_entry.lemma_push_to_set_commute(cur);
                assert(p_new == p_entry.insert(cur));
                assert(ord_new.no_duplicates()) by {
                    assert(forall|i: int|
                        0 <= i < ord_entry.len() ==> ord_new[i] == ord_entry[i]);
                }
                assert forall|x: u32| #[trigger] ord_new.contains(x) implies m.contains_key(x) by {
                    if x != cur {
                        let i = choose|i: int| 0 <= i < ord_new.len() && ord_new[i] == x;
                        assert(i < ord_entry.len());
                        assert(ord_entry[i] == x);
                        assert(ord_entry.contains(x));
                    }
                }
                assert(ord_new.len() <= n) by {
                    ord_new.unique_seq_to_set();
                    assert(p_new.subset_of(m.dom())) by {
                        assert forall|x: u32| #[trigger] p_new.contains(x) implies m.dom().contains(
                            x,
                        ) by {
                            if x != cur {
                                assert(ord_entry.contains(x));
                            }
                        }
                    }
                    lemma_len_subset(p_new, m.dom());
                }
                // No parent of `cur` is missing from the emitted set,
                // and `cur` is no parent of an emitted reach.
                assert(parents_before(m, ord_new)) by {
                    assert forall|i: int, j: int|
                        0 <= i < ord_new.len() && 0 <= j < ord_new.len() && m.contains_key(
                            ord_new[i],
                        ) && m[ord_new[i]].downstream_id == Some(ord_new[j]) implies i < j by {
                        if i == ord_entry.len() {
                            // cur drains into ord_new[j]: that reach cannot
                            // already be emitted, its parents would all be.
                            let w = ord_new[j];
                            assert(ord_new[i] == cur);
                            assert(is_parent(m, cur, w));
                            if j < ord_entry.len() {
                                assert(ord_entry[j] == w);
                                assert(ord_entry.contains(w));
                                assert(m.contains_key(w));
                                assert(remaining_parents(m, w, p_entry).len() == 0);
                                lemma_parents_finite(m, w);
                                lemma_len_subset(
                                    remaining_parents(m, w, p_entry),
                                    parents_of(m, w),
                                );
                                remaining_parents(m, w, p_entry).lemma_len0_is_empty();
                                assert(parents_of(m, w).contains(cur));
                                if !p_entry.contains(cur) {
                                    assert(remaining_parents(m, w, p_entry).contains(cur));
                                    assert(false);
                                }
                                assert(ord_entry.contains(cur));
                                assert(false);
                            } else {
                                // self loop: cur would be its own unmet parent
                                assert(w == cur);
                                assert(parents_of(m, cur).contains(cur));
                                assert(!p_entry.contains(cur));
                                assert(remaining_parents(m, cur, p_entry).contains(cur));
                                assert(false);
                            }
                        } else {
                            if j < ord_entry.len() {
                                assert(ord_entry[i] == ord_new[i] && ord_entry[j] == ord_new[j]);
                            }
                        }
                    }
                }
            }
            let down = match self.nodes.get(&cur) {
                Some(node) => node.downstream_id,
                None => None,
            };
            proof {
                assert(down == m[cur].downstream_id);
            }
            let mut released: Option<u32> = None;
            let mut bumped: Option<u32> = None;
            if let Some(d) = down {
                let deg_d = match degree.get(&d) {
                    Some(c) => Some(*c),
                    None => None,
                };
                if let Some(c) = deg_d {
                    proof {
                        assert(degree@.contains_key(d));
                        assert(m.contains_key(d));
                        assert(is_parent(m, cur, d));
                        assert(!p_entry.contains(cur));
                        assert(remaining_parents(m, d, p_entry).contains(cur));
                        assert(c == remaining_parents(m, d, p_entry).len());
                        lemma_parents_finite(m, d);
                        lemma_len_subset(remaining_parents(m, d, p_entry), parents_of(m, d));
                        if c == 0 {
                            remaining_parents(m, d, p_entry).lemma_len0_is_empty();
                            assert(false);
                        }
                        assert(remaining_parents(m, d, p_new) =~= remaining_parents(
                            m,
                            d,
                            p_entry,
                        ).remove(cur));
                        assert(d != cur) by {
                            if d == cur {
                                assert(remaining_parents(m, cur, p_entry).contains(cur));
                                assert(remaining_parents(m, cur, p_entry).len() == 0);
                                remaining_parents(m, cur, p_entry).lemma_len0_is_empty();
                            }
                        }
                        assert(!ord_entry.contains(d) && !queue_entry.contains(d)) by {
                            if ord_entry.contains(d) || queue_entry.contains(d) {
                                assert(remaining_parents(m, d, p_entry).len() == 0);
                                remaining_parents(m, d, p_entry).lemma_len0_is_empty();
                            }
                        }
                    }
                    degree.insert(d, c - 1);
                    bumped = Some(d);
                    proof {
                        assert(degree@[d] == c - 1);
                        assert(remaining_parents(m, d, p_new).len() == c - 1);
                    }
                    if c - 1 == 0 {
                        queue.push_back(d);
                        released = Some(d);
                    }
                }
            }
            proof {
                let queue_mid = queue_entry.subrange(1, queue_entry.len() as int);
                let queue_new = queue@;
                assert(queue_new == if released is Some {
                    queue_mid.push(released->0)
                } else {
                    queue_mid
                });
                // Popped-queue membership.
                assert forall|x: u32| #[trigger] queue_mid.contains(x) implies queue_entry.contains(
                    x,
                ) && x != cur by {
                    let i = choose|i: int| 0 <= i < queue_mid.len() && queue_mid[i] == x;
                    assert(queue_entry[i + 1] == x);
                    if x == cur {
                        assert(queue_entry[0] == cur);
                        assert(false);
                    }
                }
                assert forall|x: u32|
                    queue_entry.contains(x) && x != cur implies #[trigger] queue_mid.contains(
                    x,
                ) by {
                    let i = choose|i: int| 0 <= i < queue_entry.len() && queue_entry[i] == x;
                    assert(i != 0);
                    assert(queue_mid[i - 1] == x);
                }
                assert(queue_mid.no_duplicates()) by {
                    assert(forall|i: int|
                        0 <= i < queue_mid.len() ==> queue_mid[i] == queue_entry[i + 1]);
                }
                assert(queue_new.no_duplicates()) by {
                    if released is Some {
                        assert(!queue_mid.contains(released->0));
                        assert(forall|i: int|
                            0 <= i < queue_mid.len() ==> queue_new[i] == queue_mid[i]);
                    }
                }
                // Queue membership after this step.
                assert forall|x: u32| #[trigger] queue_new.contains(x) implies m.contains_key(x)
                    && !ord_new.contains(x) by {
                    if released is Some && x == released->0 {
                        assert(!ord_entry.contains(x) && x != cur);
                    } else {
                        if queue_new.contains(x) {
                            let i = choose|i: int|
                                0 <= i < queue_new.len() && queue_new[i] == x;
                            if i < queue_mid.len() {
                                assert(queue_mid[i] == x);
                                assert(queue_mid.contains(x));
                            } else {
                                assert(released is Some && queue_new[i] == released->0);
                            }
                            assert(queue_mid.contains(x) || (released is Some && x
                                == released->0));
                        }
                        if queue_mid.contains(x) {
                            assert(queue_entry.contains(x) && x != cur);
                            if ord_new.contains(x) {
                                let i = choose|i: int|
                                    0 <= i < ord_new.len() && ord_new[i] == x;
                                assert(i < ord_entry.len());
                                assert(ord_entry[i] == x);
                                assert(false);
                            }
                        }
                    }
                }
                // Degree bookkeeping for the unaffected reaches.
                assert forall|v: u32| #[trigger]
                    degree@.contains_key(v) && bumped != Some(v) implies degree@[v]
                    == remaining_parents(m, v, p_new).len() by {
                    assert(remaining_parents(m, v, p_new) =~= remaining_parents(m, v, p_entry)) by {
                        if is_parent(m, cur, v) {
                            assert(down == Some(v));
                            assert(degree@.contains_key(v));
                            assert(bumped == Some(v));
                        }
                    }
                }
                // Release membership for every reach.
                assert forall|v: u32| #[trigger] m.contains_key(v) implies ((ord_new.contains(v)
                    || queue_new.contains(v)) <==> remaining_parents(m, v, p_new).len() == 0) by {
                    if v == cur {
                        assert(ord_new[ord_new.len() - 1] == cur);
                        assert(ord_new.contains(cur));
                        assert(remaining_parents(m, cur, p_new) =~= Set::<u32>::empty()) by {
                            assert(remaining_parents(m, cur, p_entry) =~= Set::<u32>::empty());
                        }
                    } else if bumped == Some(v) {
                        let d = bumped->0;
                        if released == Some(v) {
                            assert(queue_new[queue_new.len() - 1] == v);
                            assert(queue_new.contains(v));
                            assert(remaining_parents(m, v, p_new).len() == 0);
                        } else {
                            assert(remaining_parents(m, v, p_new).len() != 0);
                            assert(!ord_entry.contains(d) && !queue_entry.contains(d));
                            if ord_new.contains(v) {
                                let i = choose|i: int|
                                    0 <= i < ord_new.len() && ord_new[i] == v;
                                assert(i < ord_entry.len());
                                assert(ord_entry[i] == v);
                                assert(false);
                            }
                            if queue_new.contains(v) {
                                assert(queue_mid.contains(v));
                                assert(queue_entry.contains(v));
                                assert(false);
                            }
                        }
                    } else {
                        assert(remaining_parents(m, v, p_new) =~= remaining_parents(
                            m,
                            v,
                            p_entry,
                        )) by {
                            if is_parent(m, cur, v) {
                                assert(down == Some(v));
                                assert(degree@.contains_key(v));
                            }
                        }
                        assert(ord_new.contains(v) <==> ord_entry.contains(v)) by {
                            if ord_new.contains(v) {
                                let i = choose|i: int|
                                    0 <= i < ord_new.len() && ord_new[i] == v;
                                assert(i < ord_entry.len());
                                assert(ord_entry[i] == v);
                            }
                            if ord_entry.contains(v) {
                                let i = choose|i: int|
                                    0 <= i < ord_entry.len() && ord_entry[i] == v;
                                assert(ord_new[i] == v);
                            }
                        }
                        assert(queue_new.contains(v) <==> queue_entry.contains(v)) by {
                            if queue_new.contains(v) {
                                let i = choose|i: int|
                                    0 <= i < queue_new.len() && queue_new[i] == v;
                                if i < queue_mid.len() {
                                    assert(queue_mid[i] == v);
                                    assert(queue_mid.contains(v));
                                } else {
                                    assert(released is Some && queue_new[i] == released->0);
                                    assert(false);
                                }
                            }
                            if queue_entry.contains(v) {
                                assert(queue_mid.contains(v));
                                let i = choose|i: int|
                                    0 <= i < queue_mid.len() && queue_mid[i] == v;
                                assert(queue_new[i] == v);
                            }
                        }
                    }
                }
            }
        }

        if self.routing_order.len() == self.ids.len() {
            proof {
                let ord = self.routing_order@;
                let p = ord.to_set();
                ord.unique_seq_to_set();
                idseq.unique_seq_to_set();
                assert(p.subset_of(m.dom())) by {
                    assert forall|x: u32| #[trigger] p.contains(x) implies m.dom().contains(x) by {
                        assert(ord.contains(x));
                    }
                }
                assert(p =~= m.dom()) by {
                    if exists|w: u32| m.dom().contains(w) && !p.contains(w) {
                        let w = choose|w: u32| m.dom().contains(w) && !p.contains(w);
                        p.lemma_subset_not_in_lt(m.dom(), w);
                        assert(false);
                    }
                }
                lemma_complete_order_acyclic(m, ord);
            }
            Ok(())
        } else {
            proof {
                let ord = self.routing_order@;
                let p = ord.to_set();
                ord.unique_seq_to_set();
                idseq.unique_seq_to_set();
                assert(p.subset_of(m.dom())) by {
                    assert forall|x: u32| #[trigger] p.contains(x) implies m.dom().contains(x) by {
                        assert(ord.contains(x));
                    }
                }
                let u = m.dom().difference(p);
                assert(exists|w: u32| u.contains(w)) by {
                    if !(exists|w: u32| u.contains(w)) {
                        assert forall|x: u32| #[trigger] m.dom().contains(x) implies p.contains(
                            x,
                        ) by {
                            assert(!u.contains(x));
                        }
                        assert(p =~= m.dom());
                        assert(ord.len() == n);
                        assert(false);
                    }
                }
                assert forall|w: u32| #[trigger] u.contains(w) implies has_parent_in(m, u, w) by {
                    assert(m.contains_key(w));
                    assert(!ord.contains(w) && !queue@.contains(w)) by {
                        if ord.contains(w) {
                            assert(p.contains(w));
                        }
                        if queue@.contains(w) {
                            let i = choose|i: int| 0 <= i < queue@.len() && queue@[i] == w;
                            assert(false);
                        }
                    }
                    assert(remaining_parents(m, w, p).len() != 0);
                    lemma_parents_finite(m, w);
                    lemma_len_subset(remaining_parents(m, w, p), parents_of(m, w));
                    assert(exists|q: u32| remaining_parents(m, w, p).contains(q)) by {
                        if !(exists|q: u32| remaining_parents(m, w, p).contains(q)) {
                            assert(remaining_parents(m, w, p) =~= Set::<u32>::empty());
                            assert(false);
                        }
                    }
                    let q = choose|q: u32| remaining_parents(m, w, p).contains(q);
                    assert(is_parent(m, q, w) && !p.contains(q));
                    assert(m.dom().contains(q));
                    assert(u.contains(q));
                }
                assert(!acyclic(m)) by {
                    if acyclic(m) {
                        assert(u.subset_of(m.dom()));
                        let v = choose|v: u32| u.contains(v) && !has_parent_in(m, u, v);
                        assert(has_parent_in(m, u, v));
                        assert(false);
                    }
                }
            }
            Err(TopologyError::Cycle { processed: self.routing_order.len(), total: self.ids.len() })
        }
    }

    /// Rewrite every downstream pointer that leaves the node set as an
    /// outlet.
    fn resolve_missing_downstreams(&mut self)
        requires
            old(self).wf(),
        ensures
            final(self).wf(),
            final(self).ids == old(self).ids,
            final(self).routing_order == old(self).routing_order,
            final(self).nodes@.dom() == old(self).nodes@.dom(),
            forall|v: u32| #[trigger]
                final(self).nodes@.contains_key(v) ==> final(self).nodes@[v].downstream_id
                    == (match old(self).nodes@[v].downstream_id {
                    Some(d) => if old(self).nodes@.contains_key(d) {
                        Some(d)
                    } else {
                        None
                    },
                    None => None,
                }) && final(self).nodes@[v].upstream_ids == old(self).nodes@[v].upstream_ids,
    {
        let ghost m0 = old(self).nodes@;
        let ghost idseq = old(self).ids@;
        let n = self.ids.len();
        let mut k: usize = 0;
        while k < n
            invariant
                0 <= k <= n,
                n == idseq.len(),
                self.wf(),
                self.ids == old(self).ids,
                self.ids@ == idseq,
                self.routing_order == old(self).routing_order,
                self.nodes@.dom() == m0.dom(),
                forall|j: int|
                    0 <= j < k ==> #[trigger] self.nodes@[idseq[j]].downstream_id == (match m0[
                        idseq[j]
                    ].downstream_id {
                        Some(d) => if m0.contains_key(d) {
                            Some(d)
                        } else {
                            None
                        },
                        None => None,
                    }) && self.nodes@[idseq[j]].upstream_ids == m0[idseq[j]].upstream_ids,
                forall|j: int|
                    k <= j < n ==> #[trigger] self.nodes@[idseq[j]] == m0[idseq[j]],
            decreases n - k,
        {
            let v = self.ids[k];
            let ghost nodes_entry = self.nodes@;
            proof {
                assert(idseq[k as int] == v);
                assert(idseq.to_set().contains(v));
                assert(self.nodes@.contains_key(v));
                assert(self.nodes@[v] == m0[v]);
            }
            let down = match self.nodes.get(&v) {
                Some(node) => node.downstream_id,
                None => None,
            };
            if let Some(d) = down {
                if !self.nodes.contains_key(&d) {
                    let mut node = match self.nodes.remove(&v) {
                        Some(node) => node,
                        None => NetworkNode::new(v, None),
                    };
                    node.downstream_id = None;
                    self.nodes.insert(v, node);
                    proof {
                        assert(self.nodes@ == nodes_entry.remove(v).insert(v, node));
                        assert(self.nodes@.dom() =~= m0.dom());
                    }
                }
            }
            proof {
                assert forall|j: int| 0 <= j < k + 1 implies #[trigger] self.nodes@[idseq[j]].downstream_id
                    == (match m0[idseq[j]].downstream_id {
                    Some(d) => if m0.contains_key(d) {
                        Some(d)
                    } else {
                        None
                    },
                    None => None,
                }) && self.nodes@[idseq[j]].upstream_ids == m0[idseq[j]].upstream_ids by {
                    if idseq[j] == v {
                        if j < k {
                            assert(idseq[j] != idseq[k as int]);
                            assert(false);
                        }
                    } else {
                        assert(self.nodes@[idseq[j]] == nodes_entry[idseq[j]]);
                    }
                }
                assert forall|j: int| k + 1 <= j < n implies #[trigger] self.nodes@[idseq[j]]
                    == m0[idseq[j]] by {
                    assert(idseq[j] != idseq[k as int]);
                    assert(self.nodes@[idseq[j]] == nodes_entry[idseq[j]]);
                }
            }
            k += 1;
        }
        proof {
            assert forall|v: u32| #[trigger] self.nodes@.contains_key(v) implies self.nodes@[v].downstream_id
                == (match m0[v].downstream_id {
                Some(d) => if m0.contains_key(d) {
                    Some(d)
                } else {
                    None
                },
                None => None,
            }) && self.nodes@[v].upstream_ids == m0[v].upstream_ids by {
                assert(idseq.to_set().contains(v));
                let j = choose|j: int| 0 <= j < idseq.len() && idseq[j] == v;
                assert(self.nodes@[idseq[j]].downstream_id == (match m0[idseq[j]].downstream_id {
                    Some(d) => if m0.contains_key(d) {
                        Some(d)
                    } else {
                        None
                    },
                    None => None,
                }));
            }
        }
    }
}

/// Build the topology out of `(key, downstream key)` rows, derive the
/// upstream lists, and compute the routing order. Fails on a key that
/// does not parse, on a network with no entry point, and on a cycle.
#[verifier::rlimit(60)]
pub fn build_network_topology(rows: &Vec<(String, String)>) -> (r: Result<
    NetworkTopology,
    TopologyError,
>)
    ensures
        match r {
            Ok(t) => {
                &&& rows_parse_ok(rows@)
                &&& t.wf()
                &&& t.order_valid()
                &&& acyclic(t.nodes@)
                &&& downstream_view(t.nodes@) == resolved_edges(rows@)
                &&& t.upstreams_built()
            },
            Err(TopologyError::InvalidKey) => !rows_parse_ok(rows@),
            Err(TopologyError::NoHeadwaters) => rows_parse_ok(rows@) && forall|v: u32| #[trigger]
                resolved_edges(rows@).contains_key(v) ==> edge_has_parent_in(
                    resolved_edges(rows@),
                    resolved_edges(rows@).dom(),
                    v,
                ),
            Err(TopologyError::Cycle { processed, total }) => rows_parse_ok(rows@)
                && !edge_acyclic(resolved_edges(rows@)),
        },
        r is Ok <==> rows_parse_ok(rows@) && rows@.len() > 0 && edge_acyclic(
            resolved_edges(rows@),
        ),
{
    let ghost rseq = rows@;
    let n = rows.len();
    let mut t = NetworkTopology::new();

    let mut k: usize = 0;
    while k < n
        invariant
            0 <= k <= n,
            n == rseq.len(),
            rows@ == rseq,
            t.wf(),
            t.routing_order@ == Seq::<u32>::empty(),
            forall|i: int|
                0 <= i < k ==> crate::ids::spec_key_id((#[trigger] rseq[i]).0@) is Some
                    && crate::ids::spec_key_id(rseq[i].1@) is Some,
            t.nodes@.dom() == raw_edges(rseq.take(k as int)).dom(),
            forall|v: u32| #[trigger]
                t.nodes@.contains_key(v) ==> t.nodes@[v].downstream_id == Some(
                    raw_edges(rseq.take(k as int))[v],
                ),
        decreases n - k,
    {
        let key = match crate::ids::parse_reach_key(rows[k].0.as_str()) {
            Some(key) => key,
            None => {
                return Err(TopologyError::InvalidKey);
            },
        };
        let down = match crate::ids::parse_reach_key(rows[k].1.as_str()) {
            Some(down) => down,
            None => {
                return Err(TopologyError::InvalidKey);
            },
        };
        t.add_node(key, Some(down));
        proof {
            assert(rseq.take(k as int + 1).drop_last() =~= rseq.take(k as int));
            assert(rseq.take(k as int + 1).last() == rseq[k as int]);
            assert(raw_edges(rseq.take(k as int + 1)) == raw_edges(rseq.take(k as int)).insert(
                key,
                down,
            ));
            assert(t.nodes@.dom() =~= raw_edges(rseq.take(k as int + 1)).dom());
        }
        k += 1;
    }
    proof {
        assert(rseq.take(n as int) =~= rseq);
    }

    t.resolve_missing_downstreams();
    proof {
        assert(downstream_view(t.nodes@) =~= resolved_edges(rseq)) by {
            let raw = raw_edges(rseq);
            assert(downstream_view(t.nodes@).dom() =~= raw.dom());
            assert forall|v: u32| #[trigger] t.nodes@.contains_key(v) implies t.nodes@[v].downstream_id
                == resolved_edges(rseq)[v] by {
                assert(raw.contains_key(v));
            }
        }
    }
    let ghost m_resolved = t.nodes@;

    t.build_upstream_connections();
    proof {
        assert(downstream_view(t.nodes@) =~= resolved_edges(rseq));
        assert forall|p: u32, v: u32| true implies (#[trigger] is_parent(t.nodes@, p, v)
            <==> #[trigger] is_parent(m_resolved, p, v)) by {
            assert(t.nodes@.contains_key(p) <==> m_resolved.contains_key(p));
            if t.nodes@.contains_key(p) {
                assert(t.nodes@[p].downstream_id == m_resolved[p].downstream_id);
            }
        }
    }
    let ghost m_connected = t.nodes@;
    let ghost ids_connected = t.ids@;

    match t.topological_sort() {
        Ok(()) => {
            proof {
                lemma_acyclic_is_edge_acyclic(t.nodes@);
                assert(rseq.len() > 0) by {
                    if rseq.len() == 0 {
                        assert(raw_edges(rseq) =~= Map::<u32, u32>::empty());
                        assert(t.nodes@.dom() =~= Set::<u32>::empty());
                        assert(t.ids@.to_set().contains(t.ids@[0]));
                        assert(false);
                    }
                }
                assert forall|v: u32| #[trigger] t.nodes@.contains_key(v) implies t.nodes@[v].upstream_ids@
                    == upstreams_in(t.ids@, t.nodes@, v) by {
                    lemma_upstreams_same(t.ids@, m_resolved, t.nodes@, v);
                    assert(t.nodes@[v].upstream_ids@ == upstreams_in(
                        ids_connected,
                        m_resolved,
                        v,
                    ));
                    assert(ids_connected == t.ids@);
                }
            }
            Ok(t)
        },
        Err(e) => {
            proof {
                lemma_acyclic_is_edge_acyclic(m_connected);
                assert(downstream_view(m_connected) == resolved_edges(rseq));
                match e {
                    TopologyError::NoHeadwaters => {
                        assert forall|v: u32| #[trigger]
                            resolved_edges(rseq).contains_key(v) implies edge_has_parent_in(
                            resolved_edges(rseq),
                            resolved_edges(rseq).dom(),
                            v,
                        ) by {
                            assert(m_connected.contains_key(v));
                            assert(parents_of(m_connected, v).len() != 0);
                            lemma_parents_finite(m_connected, v);
                            if !(exists|p: u32| parents_of(m_connected, v).contains(p)) {
                                assert(parents_of(m_connected, v) =~= Set::<u32>::empty());
                                assert(false);
                            }
                            let p = choose|p: u32| parents_of(m_connected, v).contains(p);
                            assert(is_parent(m_connected, p, v));
                            assert(edge_is_parent(resolved_edges(rseq), p, v));
                            assert(resolved_edges(rseq).dom().contains(p));
                        }
                        if rseq.len() > 0 && edge_acyclic(resolved_edges(rseq)) {
                            assert(acyclic(m_connected));
                            assert(ids_connected.len() > 0) by {
                                assert(rseq.take(rseq.len() as int) =~= rseq);
                                let key = crate::ids::spec_key_id(rseq.last().0@)->0;
                                assert(raw_edges(rseq).contains_key(key));
                                assert(m_connected.dom().contains(key));
                                assert(ids_connected.to_set().contains(key));
                                assert(ids_connected.contains(key));
                            }
                            assert(false);
                        }
                    },
                    TopologyError::Cycle { processed, total } => {
                        assert(!edge_acyclic(resolved_edges(rseq)));
                    },
                    TopologyError::InvalidKey => {
                        assert(false);
                    },
                }
            }
            Err(e)
        },
    }
}

/// The downstream pointer of every reach, with the rest of the node
/// forgotten.
pub open spec fn downstream_view(m: Map<u32, NetworkNode>) -> Map<u32, Option<u32>> {
    Map::new(|v: u32| m.contains_key(v), |v: u32| m[v].downstream_id)
}

/// Both keys of every row parse as reach ids.
pub open spec fn rows_parse_ok(rows: Seq<(String, String)>) -> bool {
    forall|i: int|
        0 <= i < rows.len() ==> crate::ids::spec_key_id((#[trigger] rows[i]).0@) is Some
            && crate::ids::spec_key_id(rows[i].1@) is Some
}

/// The downstream edges the rows describe; a repeated key keeps its
/// last row. Rows that do not parse are ignored here (construction
/// fails on them before this map matters).
pub open spec fn raw_edges(rows: Seq<(String, String)>) -> Map<u32, u32>
    decreases rows.len(),
{
    if rows.len() == 0 {
        Map::empty()
    } else {
        let rest = raw_edges(rows.drop_last());
        let key = crate::ids::spec_key_id(rows.last().0@);
        let down = crate::ids::spec_key_id(rows.last().1@);
        if key is Some && down is Some {
            rest.insert(key->0, down->0)
        } else {
            rest
        }
    }
}

/// The edges after unknown downstream ids are rewritten as outlets.
pub open spec fn resolved_edges(rows: Seq<(String, String)>) -> Map<u32, Option<u32>> {
    let raw = raw_edges(rows);
    Map::new(
        |v: u32| raw.contains_key(v),
        |v: u32|
            if raw.contains_key(raw[v]) {
                Some(raw[v])
            } else {
                None
            },
    )
}

/// The parents of `v` among `ids`, in the order of `ids`.
pub open spec fn upstreams_in(ids: Seq<u32>, m: Map<u32, NetworkNode>, v: u32) -> Seq<u32> {
    ids.filter(|p: u32| is_parent(m, p, v))
}

pub open spec fn edge_is_parent(e: Map<u32, Option<u32>>, p: u32, v: u32) -> bool {
    e.contains_key(p) && e[p] == Some(v)
}

pub open spec fn edge_has_parent_in(e: Map<u32, Option<u32>>, s: Set<u32>, v: u32) -> bool {
    exists|p: u32| s.contains(p) && edge_is_parent(e, p, v)
}

/// `acyclic`, stated on the downstream pointers alone.
pub open spec fn edge_acyclic(e: Map<u32, Option<u32>>) -> bool {
    forall|s: Set<u32>|
        #![trigger s.subset_of(e.dom())]
        s.subset_of(e.dom()) && (exists|v: u32| s.contains(v)) ==> exists|v: u32|
            s.contains(v) && !edge_has_parent_in(e, s, v)
}

/// Whether a graph has a cycle depends on its downstream pointers only.
proof fn lemma_acyclic_is_edge_acyclic(m: Map<u32, NetworkNode>)
    ensures
        acyclic(m) <==> edge_acyclic(downstream_view(m)),
{
    let e = downstream_view(m);
    assert(e.dom() =~= m.dom());
    assert forall|s: Set<u32>, v: u32| true implies (#[trigger] has_parent_in(m, s, v)
        <==> #[trigger] edge_has_parent_in(e, s, v)) by {
        if has_parent_in(m, s, v) {
            let p = choose|p: u32| s.contains(p) && is_parent(m, p, v);
            assert(edge_is_parent(e, p, v));
        }
        if edge_has_parent_in(e, s, v) {
            let p = choose|p: u32| s.contains(p) && edge_is_parent(e, p, v);
            assert(is_parent(m, p, v));
        }
    }
    if acyclic(m) {
        assert forall|s: Set<u32>|
            s.subset_of(e.dom()) && (exists|v: u32| s.contains(v)) implies exists|v: u32|
            s.contains(v) && !edge_has_parent_in(e, s, v) by {
            assert(s.subset_of(m.dom()));
            let v = choose|v: u32| s.contains(v) && !has_parent_in(m, s, v);
            assert(s.contains(v) && !edge_has_parent_in(e, s, v));
        }
    }
    if edge_acyclic(e) {
        assert forall|s: Set<u32>|
            s.subset_of(m.dom()) && (exists|v: u32| s.contains(v)) implies exists|v: u32|
            s.contains(v) && !has_parent_in(m, s, v) by {
            assert(s.subset_of(e.dom()));
            let v = choose|v: u32| s.contains(v) && !edge_has_parent_in(e, s, v);
            assert(s.contains(v) && !has_parent_in(m, s, v));
        }
    }
}

/// Filtering for parents reads only the downstream pointers.
proof fn lemma_upstreams_same(
    ids: Seq<u32>,
    m1: Map<u32, NetworkNode>,
    m2: Map<u32, NetworkNode>,
    v: u32,
)
    requires
        forall|p: u32| #[trigger] is_parent(m1, p, v) <==> #[trigger] is_parent(m2, p, v),
    ensures
        upstreams_in(ids, m1, v) == upstreams_in(ids, m2, v),
    decreases ids.len(),
{
    reveal(Seq::filter);
    if ids.len() > 0 {
        lemma_upstreams_same(ids.drop_last(), m1, m2, v);
    }
}

/// The parents of `v` that are not yet in `emitted`.
pub open spec fn remaining_parents(m: Map<u32, NetworkNode>, v: u32, emitted: Set<u32>) -> Set<
    u32,
> {
    parents_of(m, v).difference(emitted)
}

/// The parents of `v` that lie in `s`.
pub open spec fn parents_in_set(s: Set<u32>, m: Map<u32, NetworkNode>, v: u32) -> Set<u32> {
    Set::new(|p: u32| s.contains(p) && is_parent(m, p, v))
}

proof fn lemma_parents_in_set_finite(s: Set<u32>, m: Map<u32, NetworkNode>, v: u32)
    requires
        s.finite(),
    ensures
        parents_in_set(s, m, v).subset_of(s),
        parents_in_set(s, m, v).finite(),
        parents_in_set(s, m, v).len() <= s.len(),
{
    lemma_len_subset(parents_in_set(s, m, v), s);
}

pub proof fn lemma_parents_finite(m: Map<u32, NetworkNode>, v: u32)
    requires
        m.dom().finite(),
    ensures
        parents_of(m, v).subset_of(m.dom()),
        parents_of(m, v).finite(),
        parents_of(m, v).len() <= m.dom().len(),
{
    lemma_len_subset(parents_of(m, v), m.dom());
}

/// The first position at or after `i` whose element lies in `s`.
proof fn first_position_in(order: Seq<u32>, s: Set<u32>, i: int) -> (j: int)
    requires
        0 <= i <= order.len(),
        exists|j: int| i <= j < order.len() && s.contains(order[j]),
    ensures
        i <= j < order.len(),
        s.contains(order[j]),
        forall|l: int| 0 <= l < j ==> i <= l ==> !s.contains(order[l]),
    decreases order.len() - i,
{
    if s.contains(order[i]) {
        i
    } else {
        let w = choose|j: int| i <= j < order.len() && s.contains(order[j]);
        assert(i + 1 <= w < order.len() && s.contains(order[w]));
        first_position_in(order, s, i + 1)
    }
}

/// A complete order in which every parent stands before its child
/// witnesses that the graph has no cycle.
proof fn lemma_complete_order_acyclic(m: Map<u32, NetworkNode>, order: Seq<u32>)
    requires
        m.dom().finite(),
        order.no_duplicates(),
        order.to_set() == m.dom(),
        parents_before(m, order),
    ensures
        acyclic(m),
{
    assert forall|s: Set<u32>|
        s.subset_of(m.dom()) && (exists|v: u32| s.contains(v)) implies exists|v: u32|
        s.contains(v) && !has_parent_in(m, s, v) by {
        let w = choose|v: u32| s.contains(v);
        assert(m.dom().contains(w));
        assert(order.to_set().contains(w));
        let wi = choose|j: int| 0 <= j < order.len() && order[j] == w;
        assert(s.contains(order[wi]));
        let j = first_position_in(order, s, 0);
        let v = order[j];
        assert(!has_parent_in(m, s, v)) by {
            if has_parent_in(m, s, v) {
                let p = choose|p: u32| s.contains(p) && is_parent(m, p, v);
                assert(m.dom().contains(p));
                assert(order.to_set().contains(p));
                let pi = choose|l: int| 0 <= l < order.len() && order[l] == p;
                assert(m[order[pi]].downstream_id == Some(order[j]));
                assert(pi < j);
                assert(!s.contains(order[pi]));
            }
        }
        assert(s.contains(v));
    }
}

proof fn lemma_upstream_list_props(ids: Seq<u32>, m: Map<u32, NetworkNode>, v: u32)
    requires
        ids.no_duplicates(),
    ensures
        upstreams_in(ids, m, v).no_duplicates(),
        forall|p: u32|
            #![trigger upstreams_in(ids, m, v).contains(p)]
            upstreams_in(ids, m, v).contains(p) <==> (ids.contains(p) && is_parent(m, p, v)),
    decreases ids.len(),
{
    reveal(Seq::filter);
    if ids.len() > 0 {
        let rest = ids.drop_last();
        let last = ids.last();
        assert(rest.no_duplicates()) by {
            assert(forall|i: int| 0 <= i < rest.len() ==> rest[i] == ids[i]);
        }
        lemma_upstream_list_props(rest, m, v);
        let fr = upstreams_in(rest, m, v);
        assert(!rest.contains(last)) by {
            if rest.contains(last) {
                let i = choose|i: int| 0 <= i < rest.len() && rest[i] == last;
                assert(ids[i] == ids[ids.len() - 1]);
                assert(false);
            }
        }
        if is_parent(m, last, v) {
            assert(upstreams_in(ids, m, v) == fr.push(last));
            assert(!fr.contains(last));
            assert(fr.push(last).no_duplicates()) by {
                assert(forall|i: int| 0 <= i < fr.len() ==> fr.push(last)[i] == fr[i]);
            }
            assert forall|p: u32|
                #![trigger upstreams_in(ids, m, v).contains(p)]
                upstreams_in(ids, m, v).contains(p) <==> (ids.contains(p) && is_parent(
                m,
                p,
                v,
            )) by {
                if fr.push(last).contains(p) {
                    let i = choose|i: int| 0 <= i < fr.len() + 1 && fr.push(last)[i] == p;
                    if i < fr.len() {
                        assert(fr[i] == p);
                        assert(fr.contains(p));
                        assert(rest.contains(p));
                        let j = choose|j: int| 0 <= j < rest.len() && rest[j] == p;
                        assert(ids[j] == p);
                        assert(ids.contains(p));
                    } else {
                        assert(p == last);
                        assert(ids.contains(last));
                    }
                }
                if ids.contains(p) && is_parent(m, p, v) {
                    if p == last {
                        assert(fr.push(last)[fr.len() as int] == p);
                        assert(fr.push(last).contains(p));
                    } else {
                        let j = choose|j: int| 0 <= j < ids.len() && ids[j] == p;
                        assert(j < rest.len() && rest[j] == p);
                        assert(rest.contains(p));
                        assert(fr.contains(p));
                        let i = choose|i: int| 0 <= i < fr.len() && fr[i] == p;
                        assert(fr.push(last)[i] == p);
                    }
                }
            }
        } else {
            assert(upstreams_in(ids, m, v) == fr);
            assert forall|p: u32|
                #![trigger upstreams_in(ids, m, v).contains(p)]
                upstreams_in(ids, m, v).contains(p) <==> (ids.contains(p) && is_parent(
                m,
                p,
                v,
            )) by {
                if fr.contains(p) {
                    assert(rest.contains(p));
                    let j = choose|j: int| 0 <= j < rest.len() && rest[j] == p;
                    assert(ids[j] == p);
                    assert(ids.contains(p));
                }
                if ids.contains(p) && is_parent(m, p, v) {
                    assert(p != last);
                    let j = choose|j: int| 0 <= j < ids.len() && ids[j] == p;
                    assert(j < rest.len() && rest[j] == p);
                    assert(rest.contains(p));
                }
            }
        }
    }
}

/// A reach's upstream list is its parent set, exactly.
pub proof fn lemma_upstream_count(t: NetworkTopology, v: u32)
    requires
        t.wf(),
        t.upstreams_built(),
        t.nodes@.contains_key(v),
    ensures
        t.nodes@[v].upstream_ids@.no_duplicates(),
        t.nodes@[v].upstream_ids@.to_set() == parents_of(t.nodes@, v),
        t.nodes@[v].upstream_ids@.len() == parents_of(t.nodes@, v).len(),
{
    lemma_upstream_list_props(t.ids@, t.nodes@, v);
    let ups = t.nodes@[v].upstream_ids@;
    assert(ups == upstreams_in(t.ids@, t.nodes@, v));
    ups.unique_seq_to_set();
    assert(ups.to_set() =~= parents_of(t.nodes@, v)) by {
        assert forall|p: u32| #[trigger] parents_of(t.nodes@, v).contains(p) implies ups.contains(
            p,
        ) by {
            assert(is_parent(t.nodes@, p, v));
            assert(t.nodes@.dom().contains(p));
            assert(t.ids@.to_set().contains(p));
            assert(t.ids@.contains(p));
        }
    }
}

proof fn lemma_upstreams_push(ids: Seq<u32>, m: Map<u32, NetworkNode>, v: u32, p: u32)
    ensures
        upstreams_in(ids.push(p), m, v) == if is_parent(m, p, v) {
            upstreams_in(ids, m, v).push(p)
        } else {
            upstreams_in(ids, m, v)
        },
{
    reveal(Seq::filter);
    let s = ids.push(p);
    assert(s.drop_last() =~= ids);
    assert(s.last() == p);
}

} // verus!
