use std::collections::{HashMap, HashSet, VecDeque};
use vstd::prelude::*;

verus! {

broadcast use vstd::std_specs::hash::group_hash_axioms;

/// Identifier of a scheduled node (a test instance or a memoized fixture instance).
pub type NodeId = u128;

/// The administrative root of every graph: the parent of each node that has no declared
/// dependency. It never does real work.
pub const START_NODE: NodeId = 0xf0993081_13f5_45c9_9fe7_5b1de19b20ee;

/// A node of the dependency/exclusion graph.
pub struct Node {
    /// The nodes that depend on this node.
    pub dependents: Vec<NodeId>,
    /// The nodes that must never be active at the same time as this node.
    pub mutually_excludes: Vec<NodeId>,
    /// The number of direct dependencies that have not completed yet.
    pub dependency_count: usize,
}

impl Node {
    pub fn new() -> (r: Node)
        ensures
            r.dependents@.len() == 0,
            r.mutually_excludes@.len() == 0,
            r.dependency_count == 0,
    {
        Node { dependents: Vec::new(), mutually_excludes: Vec::new(), dependency_count: 0 }
    }
}

/// Exclusion is symmetric among the nodes of the map.
pub open spec fn symmetric(nodes: Map<NodeId, Node>) -> bool {
    forall|a: NodeId, b: NodeId|
        #![trigger nodes[a].mutually_excludes@.contains(b), nodes[b]]
        nodes.contains_key(a) && nodes.contains_key(b) && nodes[a].mutually_excludes@.contains(b)
            ==> nodes[b].mutually_excludes@.contains(a)
}

/// No node excludes itself.
pub open spec fn irreflexive(nodes: Map<NodeId, Node>) -> bool {
    forall|a: NodeId| #[trigger]
        nodes.contains_key(a) ==> !nodes[a].mutually_excludes@.contains(a)
}

/// The two maps hold the same nodes with the same edges; only dependency counts may differ.
pub open spec fn same_edges(a: Map<NodeId, Node>, b: Map<NodeId, Node>) -> bool {
    &&& a.dom() == b.dom()
    &&& forall|k: NodeId| #[trigger]
        a.contains_key(k) ==> a[k].mutually_excludes@ == b[k].mutually_excludes@
            && a[k].dependents@ == b[k].dependents@
}

/// `b` starts with `a`: the queue only grows at its back.
pub open spec fn extends(a: Seq<NodeId>, b: Seq<NodeId>) -> bool {
    a.len() <= b.len() && b.take(a.len() as int) == a
}

proof fn lemma_extends_trans(a: Seq<NodeId>, b: Seq<NodeId>, c: Seq<NodeId>)
    requires
        extends(a, b),
        extends(b, c),
    ensures
        extends(a, c),
{
    assert(c.take(a.len() as int) =~= c.take(b.len() as int).take(a.len() as int));
}

/// How often `k` occurs in `s`.
pub open spec fn occurrences(s: Seq<NodeId>, k: NodeId) -> nat
    decreases s.len(),
{
    if s.len() == 0 {
        0
    } else {
        occurrences(s.drop_last(), k) + if s.last() == k {
            1nat
        } else {
            0nat
        }
    }
}

/// A node that occurs in a list of dependents occurs at least once.
pub proof fn lemma_occurs(s: Seq<NodeId>, k: NodeId)
    ensures
        s.contains(k) <==> occurrences(s, k) > 0,
    decreases s.len(),
{
    if s.len() > 0 {
        lemma_occurs(s.drop_last(), k);
        if s.contains(k) && s.last() != k {
            let j = s.index_of(k);
            assert(s.drop_last()[j] == k);
        }
        if s.drop_last().contains(k) {
            let j = s.drop_last().index_of(k);
            assert(s[j] == k);
        }
        if s.last() == k {
            assert(s[s.len() - 1] == k);
        }
    }
}

/// A dependency count lowered by `n`, stopping at zero.
pub open spec fn lowered(count: usize, n: nat) -> nat {
    if count >= n {
        (count - n) as nat
    } else {
        0
    }
}

/// What `next` hands out.
#[derive(Clone, Copy, Debug, PartialEq, Eq, Structural)]
pub enum NextInSchedule {
    /// A node is ready to run.
    Next(NodeId),
    /// Every node has completed.
    Completed,
    /// Nodes are running but none is ready: wait for a completion before asking again.
    Running,
}

/// Why a completion was refused; each one means that the build or the run loop is broken.
#[derive(Clone, Copy, Debug, PartialEq, Eq, Structural)]
pub enum CompletionError {
    /// No node of the schedule has this id.
    UnknownNode,
    /// The node exists but was not handed out.
    NotActive,
    /// The node still waits on dependencies.
    StillBlocked,
}

/// Decides which nodes may run, given dependencies and mutual exclusions.
/// It knows nodes only by id.
pub struct Schedule {
    nodes: HashMap<NodeId, Node>,
    /// Nodes that are unblocked but excluded by an active node.
    waiting: HashSet<NodeId>,
    /// For an active node, the waiting nodes that it currently excludes.
    excluding: HashMap<NodeId, Vec<NodeId>>,
    /// Nodes that were queued or handed out and have not completed.
    active: HashSet<NodeId>,
    /// Nodes that may run, in first-in first-out order.
    queue: VecDeque<NodeId>,
}

impl Schedule {
    /// The nodes that have not completed.
    pub closed spec fn nodes(&self) -> Map<NodeId, Node> {
        self.nodes@
    }

    /// The nodes that are queued or running.
    pub closed spec fn active(&self) -> Set<NodeId> {
        self.active@
    }

    /// The nodes that may be handed out, in order.
    pub closed spec fn queue(&self) -> Seq<NodeId> {
        self.queue@
    }

    /// The nodes that are unblocked but held back by an active node.
    pub closed spec fn waiting(&self) -> Set<NodeId> {
        self.waiting@
    }

    /// The bookkeeping of exclusions that are still pending.
    pub closed spec fn pending_exclusions(&self) -> Set<NodeId> {
        self.excluding@.dom()
    }

    /// `a` and `b` must not be active together.
    pub open spec fn excludes(&self, a: NodeId, b: NodeId) -> bool {
        self.nodes().contains_key(a) && self.nodes()[a].mutually_excludes@.contains(b)
    }

    pub open spec fn is_active(&self, a: NodeId) -> bool {
        self.active().contains(a)
    }

    pub closed spec fn wf(&self) -> bool {
        &&& symmetric(self.nodes@)
        &&& forall|a: NodeId| #[trigger]
            self.active@.contains(a) ==> self.nodes@.contains_key(a)
                && self.nodes@[a].dependency_count == 0
        &&& forall|a: NodeId, b: NodeId|
            #![trigger self.active@.contains(a), self.active@.contains(b)]
            self.active@.contains(a) && self.active@.contains(b)
                ==> !self.nodes@[a].mutually_excludes@.contains(b)
        &&& forall|i: int| 0 <= i < self.queue@.len() ==> #[trigger]
            self.active@.contains(self.queue@[i])
        &&& forall|a: NodeId| #[trigger]
            self.excluding@.contains_key(a) ==> self.active@.contains(a)
        &&& irreflexive(self.nodes@)
        &&& self.queue@.no_duplicates()
    }

    /// The queue holds no node twice.
    pub proof fn lemma_queue_unique(&self)
        requires
            self.wf(),
        ensures
            self.queue().no_duplicates(),
    {
    }

    /// Every queued node is active.
    pub proof fn lemma_queued_are_active(&self, i: int)
        requires
            self.wf(),
            0 <= i < self.queue().len(),
        ensures
            self.active().contains(self.queue()[i]),
    {
    }

    /// Exclusions are pending only for active nodes.
    pub proof fn lemma_pending_are_active(&self, a: NodeId)
        requires
            self.wf(),
            self.pending_exclusions().contains(a),
        ensures
            self.active().contains(a),
    {
    }

    /// The bookkeeping of waiting nodes is sound: a waiting node is unblocked and not active,
    /// each active node that excludes it has it on record, and every unblocked node is active
    /// or waiting.
    pub closed spec fn waits_ok(&self) -> bool {
        &&& forall|w: NodeId| #[trigger] self.waiting@.contains(w) ==> self.nodes@.contains_key(w)
            && self.nodes@[w].dependency_count == 0 && !self.active@.contains(w)
        &&& forall|w: NodeId, a: NodeId|
            #![trigger self.waiting@.contains(w), self.nodes@[a].mutually_excludes@.contains(w)]
            self.waiting@.contains(w) && self.active@.contains(a) && self.nodes@[a].mutually_excludes@.contains(w)
                ==> self.excluding@.contains_key(a) && self.excluding@[a]@.contains(w)
        &&& forall|k: NodeId| #[trigger] self.nodes@.contains_key(k) && self.nodes@[k].dependency_count == 0
            ==> self.active@.contains(k) || self.waiting@.contains(k)
    }

    /// Beyond `wf`: the waiting bookkeeping is sound and each waiting node is held back by an
    /// active node.
    pub closed spec fn settled(&self) -> bool {
        &&& self.waits_ok()
        &&& forall|w: NodeId| #[trigger] self.waiting@.contains(w) ==> self.held_back(w)
    }

    /// Every active node is still in the graph.
    pub proof fn lemma_active_are_nodes(&self, a: NodeId)
        requires
            self.wf(),
            self.active().contains(a),
        ensures
            self.nodes().contains_key(a),
    {
    }

    /// No two active nodes exclude each other, in any state of a run.
    pub proof fn lemma_active_disjoint(&self, a: NodeId, b: NodeId)
        requires
            self.wf(),
            self.active().contains(a),
            self.active().contains(b),
        ensures
            !self.excludes(a, b),
    {
        assert(self.active@.contains(a) && self.active@.contains(b));
    }

    /// Nothing is queued or running, yet nodes remain: no node can ever become ready. Asking
    /// for the next node then is a broken run.
    pub open spec fn stalled(&self) -> bool {
        &&& self.queue().len() == 0
        &&& self.active().is_empty()
        &&& !(self.nodes().is_empty() && self.pending_exclusions().is_empty())
    }

    /// Whether the schedule is stalled.
    pub fn is_stalled(&self) -> (r: bool)
        ensures
            r == self.stalled(),
    {
        proof {
            if self.queue@.len() == 0 {
                assert(self.queue@ =~= Seq::<NodeId>::empty());
            }
        }
        self.queue.len() == 0 && self.active.is_empty() && !(self.nodes.is_empty()
            && self.excluding.is_empty())
    }

    /// Pops the next ready node; otherwise tells whether the run is over or still running.
    pub fn next(&mut self) -> (r: NextInSchedule)
        requires
            old(self).wf(),
            !old(self).stalled(),
        ensures
            final(self).wf(),
            old(self).settled() ==> final(self).settled(),
            final(self).nodes() == old(self).nodes(),
            final(self).active() == old(self).active(),
            final(self).waiting() == old(self).waiting(),
            final(self).pending_exclusions() == old(self).pending_exclusions(),
            old(self).queue().len() > 0 ==> r == NextInSchedule::Next(old(self).queue()[0])
                && final(self).queue() == old(self).queue().drop_first(),
            old(self).queue().len() == 0 ==> final(self).queue() == old(self).queue() && r == (
            if old(self).nodes().is_empty() && old(self).pending_exclusions().is_empty() {
                NextInSchedule::Completed
            } else {
                NextInSchedule::Running
            }),
    {
        if let Some(item) = self.queue.pop_front() {
            proof {
                if old(self).settled() {
                    assert forall|w: NodeId| #[trigger] self.waiting@.contains(w) implies self.held_back(w) by {
                        assert(old(self).held_back(w));
                        let a = choose|a: NodeId| old(self).active@.contains(a)
                            && #[trigger] old(self).nodes@[w].mutually_excludes@.contains(a);
                        assert(self.nodes@[w].mutually_excludes@.contains(a));
                    }
                }
                assert forall|i: int| 0 <= i < self.queue@.len() implies #[trigger]
                    self.active@.contains(self.queue@[i]) by {
                    assert(self.queue@[i] == old(self).queue@[i + 1]);
                }
                assert forall|i: int, j: int| 0 <= i < self.queue@.len() && 0 <= j < self.queue@.len() && i != j
                    implies self.queue@[i] != self.queue@[j] by {
                    assert(self.queue@[i] == old(self).queue@[i + 1] && self.queue@[j] == old(self).queue@[j + 1]);
                }
            }
            return NextInSchedule::Next(item);
        }
        if self.nodes.is_empty() && self.excluding.is_empty() {
            proof {
                assert(self.excluding@.dom() =~= Set::empty());
            }
            return NextInSchedule::Completed;
        }
        proof {
            if self.nodes@.is_empty() {
                assert(!self.excluding@.is_empty());
            }
            if !self.excluding@.is_empty() {
                assert(self.excluding@.dom() !== Set::empty());
            }
        }
        NextInSchedule::Running
    }

    /// Whether the node may be queued now: it exists, waits on no dependency and no active
    /// node excludes it.
    fn node_can_be_queued(&self, id: NodeId) -> (r: bool)
        ensures
            r == (self.nodes@.contains_key(id) && self.nodes@[id].dependency_count == 0
                && forall|x: NodeId| #[trigger]
                self.nodes@[id].mutually_excludes@.contains(x) ==> !self.active@.contains(x)),
    {
        let node = match self.nodes.get(&id) {
            Some(node) => node,
            None => return false,
        };
        if node.dependency_count > 0 {
            return false;
        }
        let mut i: usize = 0;
        while i < node.mutually_excludes.len()
            invariant
                self.nodes@.contains_key(id),
                *node == self.nodes@[id],
                0 <= i <= node.mutually_excludes@.len(),
                forall|j: int| 0 <= j < i ==> !self.active@.contains(
                    #[trigger] node.mutually_excludes@[j],
                ),
            decreases node.mutually_excludes@.len() - i,
        {
            if self.active.contains(&node.mutually_excludes[i]) {
                proof {
                    assert(node.mutually_excludes@.contains(node.mutually_excludes@[i as int]));
                }
                return false;
            }
            i = i + 1;
        }
        true
    }

    /// Queues a node that may run and marks it active.
    fn add_to_queue(&mut self, id: NodeId)
        requires
            old(self).wf(),
            old(self).nodes@.contains_key(id),
            old(self).nodes@[id].dependency_count == 0,
            !old(self).active@.contains(id),
            forall|x: NodeId| #[trigger]
                old(self).nodes@[id].mutually_excludes@.contains(x) ==> !old(self).active@.contains(
                    x,
                ),
        ensures
            final(self).wf(),
            final(self).nodes@ == old(self).nodes@,
            final(self).active@ == old(self).active@.insert(id),
            final(self).queue@ == old(self).queue@.push(id),
            final(self).excluding@ == old(self).excluding@,
            final(self).waiting@ == old(self).waiting@,
    {
        self.queue.push_back(id);
        self.active.insert(id);
        proof {
            let s = *self;
            assert forall|i: int, j: int| 0 <= i < s.queue@.len() && 0 <= j < s.queue@.len() && i != j
                implies s.queue@[i] != s.queue@[j] by {
                let n = old(self).queue@.len() as int;
                if i < n && j < n {
                    assert(s.queue@[i] == old(self).queue@[i] && s.queue@[j] == old(self).queue@[j]);
                } else if i < n {
                    assert(old(self).active@.contains(old(self).queue@[i]));
                    assert(s.queue@[i] == old(self).queue@[i]);
                } else if j < n {
                    assert(old(self).active@.contains(old(self).queue@[j]));
                    assert(s.queue@[j] == old(self).queue@[j]);
                }
            }
            assert forall|a: NodeId, b: NodeId|
                s.active@.contains(a) && s.active@.contains(b) implies !s.nodes@[a].mutually_excludes@.contains(b)
                by {
                if a == id && b != id {
                    assert(old(self).active@.contains(b));
                } else if b == id && a != id {
                    assert(old(self).active@.contains(a));
                    if s.nodes@[a].mutually_excludes@.contains(b) {
                        assert(s.nodes@[id].mutually_excludes@.contains(a));
                    }
                } else if a != id && b != id {
                    assert(old(self).active@.contains(a) && old(self).active@.contains(b));
                }
            }
            assert forall|i: int| 0 <= i < s.queue@.len() implies #[trigger]
                s.active@.contains(s.queue@[i]) by {
                if i < old(self).queue@.len() {
                    assert(s.queue@[i] == old(self).queue@[i]);
                }
            }
        }
    }

    /// Whether the node sits in the queue, not yet handed out.
    fn is_queued(&self, id: NodeId) -> (r: bool)
        ensures
            r == self.queue@.contains(id),
    {
        let mut i: usize = 0;
        while i < self.queue.len()
            invariant
                0 <= i <= self.queue@.len(),
                forall|j: int| 0 <= j < i ==> self.queue@[j] != id,
            decreases self.queue@.len() - i,
        {
            if self.queue[i] == id {
                return true;
            }
            i = i + 1;
        }
        false
    }

    /// The members of `ids` that are waiting.
    fn waiting_among(&self, ids: &Vec<NodeId>) -> (r: Vec<NodeId>)
        ensures
            forall|y: NodeId| #[trigger] r@.contains(y) <==> ids@.contains(y) && self.waiting@.contains(y),
    {
        let mut r: Vec<NodeId> = Vec::new();
        let mut i: usize = 0;
        while i < ids.len()
            invariant
                0 <= i <= ids@.len(),
                forall|y: NodeId| #[trigger] r@.contains(y) <==> ids@.take(i as int).contains(y)
                    && self.waiting@.contains(y),
            decreases ids@.len() - i,
        {
            let x = ids[i];
            let ghost before = r@;
            proof {
                assert(ids@.take(i + 1) =~= ids@.take(i as int).push(x));
            }
            if self.waiting.contains(&x) {
                r.push(x);
            }
            proof {
                assert forall|y: NodeId| #[trigger] r@.contains(y) <==> ids@.take(i + 1).contains(y)
                    && self.waiting@.contains(y) by {
                    lemma_push_contains(ids@.take(i as int), x, y);
                    if r@ != before {
                        lemma_push_contains(before, x, y);
                    }
                }
            }
            i = i + 1;
        }
        proof {
            assert(ids@.take(i as int) =~= ids@);
        }
        r
    }

    /// Records that the active node `excluder` holds back the waiting node `id`.
    fn record_excluded(&mut self, excluder: NodeId, id: NodeId)
        requires
            old(self).wf(),
            old(self).active@.contains(excluder),
        ensures
            final(self).wf(),
            final(self).nodes@ == old(self).nodes@,
            final(self).active@ == old(self).active@,
            final(self).queue@ == old(self).queue@,
            final(self).waiting@ == old(self).waiting@,
            final(self).excluding@.contains_key(excluder) && final(self).excluding@[excluder]@.contains(id),
            forall|a: NodeId, w: NodeId| #![trigger final(self).excluding@[a]@.contains(w)]
                old(self).excluding@.contains_key(a) && old(self).excluding@[a]@.contains(w)
                ==> final(self).excluding@.contains_key(a) && final(self).excluding@[a]@.contains(w),
            forall|a: NodeId| #[trigger] old(self).excluding@.contains_key(a)
                ==> final(self).excluding@.contains_key(a),
            forall|a: NodeId| a != excluder ==> #[trigger] final(self).excluding@.contains_key(a)
                == old(self).excluding@.contains_key(a) && (old(self).excluding@.contains_key(a)
                ==> final(self).excluding@[a] == old(self).excluding@[a]),
    {
        let ghost before = self.excluding@;
        let mut held = match self.excluding.remove(&excluder) {
            Some(held) => held,
            None => Vec::new(),
        };
        let ghost held_before = held@;
        held.push(id);
        self.excluding.insert(excluder, held);
        proof {
            lemma_push_contains(held_before, id, id);
            assert forall|a: NodeId, w: NodeId| #![trigger self.excluding@[a]@.contains(w)]
                before.contains_key(a) && before[a]@.contains(w)
                implies self.excluding@.contains_key(a) && self.excluding@[a]@.contains(w) by {
                if a == excluder {
                    lemma_push_contains(held_before, id, w);
                }
            }
        }
    }


    /// Releases the waiting nodes that `done` was holding back, where nothing else holds them.
    fn release_excluded(&mut self, held: &Vec<NodeId>)
        requires
            old(self).wf(),
            old(self).waits_ok(),
            forall|w: NodeId| #[trigger] old(self).waiting@.contains(w) ==> old(self).held_back(w)
                || held@.contains(w),
        ensures
            final(self).wf(),
            final(self).settled(),
            final(self).nodes@ == old(self).nodes@,
            old(self).active@.subset_of(final(self).active@),
            extends(old(self).queue@, final(self).queue@),
            forall|k: NodeId| #[trigger] final(self).active@.contains(k) && !old(self).active@.contains(k)
                ==> final(self).queue@.contains(k),
            forall|k: NodeId| #[trigger] final(self).queue@.contains(k) && !old(self).queue@.contains(k)
                ==> !old(self).active@.contains(k),
    {
        let mut i: usize = 0;
        proof {
            assert(self.queue@.take(self.queue@.len() as int) =~= self.queue@);
        }
        proof {
            assert(held@.subrange(0, held@.len() as int) =~= held@);
        }
        while i < held.len()
            invariant
                self.wf(),
                self.waits_ok(),
                self.nodes@ == old(self).nodes@,
                old(self).active@.subset_of(self.active@),
                extends(old(self).queue@, self.queue@),
                forall|k: NodeId| #[trigger] self.active@.contains(k) && !old(self).active@.contains(k)
                    ==> self.queue@.contains(k),
                forall|k: NodeId| #[trigger] self.queue@.contains(k) && !old(self).queue@.contains(k)
                    ==> !old(self).active@.contains(k),
                0 <= i <= held@.len(),
                forall|w: NodeId| #[trigger] self.waiting@.contains(w) ==> self.held_back(w)
                    || held@.subrange(i as int, held@.len() as int).contains(w),
            decreases held@.len() - i,
        {
            let id = held[i];
            let ghost before = *self;
            proof {
                assert forall|w: NodeId| #[trigger] held@.subrange(i as int, held@.len() as int).contains(w)
                    implies w == id || held@.subrange(i + 1, held@.len() as int).contains(w) by {
                    let j = held@.subrange(i as int, held@.len() as int).index_of(w);
                    if j > 0 {
                        assert(held@.subrange(i + 1, held@.len() as int)[j - 1] == w);
                    }
                }
            }
            if self.waiting.contains(&id) && !self.active.contains(&id) && self.node_can_be_queued(
                id,
            ) {
                let still_waiting = match self.nodes.get(&id) {
                    Some(node) => self.waiting_among(&node.mutually_excludes),
                    None => Vec::new(),
                };
                self.waiting.remove(&id);
                self.add_to_queue(id);
                self.excluding.insert(id, still_waiting);
                proof {
                    assert forall|k: NodeId| #[trigger] self.active@.contains(k) && !old(self).active@.contains(k)
                        implies self.queue@.contains(k) by {
                        lemma_push_contains(before.queue@, id, k);
                    }
                    assert forall|k: NodeId| #[trigger] self.queue@.contains(k) && !old(self).queue@.contains(k)
                        implies !old(self).active@.contains(k) by {
                        lemma_push_contains(before.queue@, id, k);
                    }
                    assert(self.queue@.take(old(self).queue@.len() as int) =~= before.queue@.take(old(self).queue@.len() as int));
                    assert forall|w: NodeId, a: NodeId|
                        #![trigger self.waiting@.contains(w), self.nodes@[a].mutually_excludes@.contains(w)]
                        self.waiting@.contains(w) && self.active@.contains(a) && self.nodes@[a].mutually_excludes@.contains(w)
                        implies self.excluding@.contains_key(a) && self.excluding@[a]@.contains(w) by {
                        if a != id {
                            assert(before.waiting@.contains(w) && before.active@.contains(a));
                        }
                    }
                    assert forall|w: NodeId| #[trigger] self.waiting@.contains(w) implies self.held_back(w)
                        || held@.subrange(i + 1, held@.len() as int).contains(w) by {
                        assert(before.waiting@.contains(w));
                        assert(w != id);
                        if before.held_back(w) {
                            let a = choose|a: NodeId| before.active@.contains(a) && #[trigger] before.nodes@[w].mutually_excludes@.contains(a);
                            assert(self.active@.contains(a));
                            assert(self.nodes@[w].mutually_excludes@.contains(a));
                        } else {
                            assert(held@.subrange(i as int, held@.len() as int).contains(w));
                        }
                    }
                }
            } else {
                proof {
                    assert forall|w: NodeId| #[trigger] self.waiting@.contains(w) implies self.held_back(w)
                        || held@.subrange(i + 1, held@.len() as int).contains(w) by {
                        if w == id {
                            assert(self.nodes@.contains_key(id) && self.nodes@[id].dependency_count == 0
                                && !self.active@.contains(id));
                            assert(!(forall|x: NodeId| #[trigger]
                                self.nodes@[id].mutually_excludes@.contains(x) ==> !self.active@.contains(x)));
                            let x = choose|x: NodeId| #[trigger]
                                self.nodes@[id].mutually_excludes@.contains(x) && self.active@.contains(x);
                            assert(self.nodes@[w].mutually_excludes@.contains(x) && self.active@.contains(x));
                        } else if !self.held_back(w) {
                            assert(held@.subrange(i as int, held@.len() as int).contains(w));
                        }
                    }
                }
            }
            i = i + 1;
        }
    }

    /// Lowers the dependency count of each dependent of a completed node, and queues (or sets
    /// waiting) those that reach zero.
    fn release_dependents(&mut self, dependents: &Vec<NodeId>)
        requires
            old(self).wf(),
            old(self).settled(),
        ensures
            final(self).wf(),
            final(self).settled(),
            extends(old(self).queue@, final(self).queue@),
            same_edges(final(self).nodes@, old(self).nodes@),
            old(self).active@.subset_of(final(self).active@),
            forall|k: NodeId| #[trigger] final(self).active@.contains(k) && !old(self).active@.contains(k)
                ==> final(self).queue@.contains(k),
            forall|k: NodeId| #[trigger] final(self).queue@.contains(k) && !old(self).queue@.contains(k)
                ==> !old(self).active@.contains(k),
            old(self).waiting@.subset_of(final(self).waiting@),
            forall|k: NodeId| #[trigger] final(self).nodes@.contains_key(k)
                ==> final(self).nodes@[k].dependency_count == lowered(
                    old(self).nodes@[k].dependency_count, occurrences(dependents@, k)),
            forall|k: NodeId| #[trigger] final(self).nodes@.contains_key(k)
                && final(self).nodes@[k].dependency_count == 0
                && old(self).nodes@[k].dependency_count > 0
                ==> final(self).active@.contains(k) || final(self).waiting@.contains(k),
    {
        let mut i: usize = 0;
        proof {
            assert(self.queue@.take(self.queue@.len() as int) =~= self.queue@);
            assert forall|k: NodeId| #[trigger] self.nodes@.contains_key(k)
                implies self.nodes@[k].dependency_count == lowered(
                    old(self).nodes@[k].dependency_count, occurrences(dependents@.take(0), k)) by {
                assert(dependents@.take(0).len() == 0);
            }
        }
        while i < dependents.len()
            invariant
                self.wf(),
                self.settled(),
                extends(old(self).queue@, self.queue@),
                same_edges(self.nodes@, old(self).nodes@),
                old(self).active@.subset_of(self.active@),
                old(self).waiting@.subset_of(self.waiting@),
                forall|k: NodeId| #[trigger] self.active@.contains(k) && !old(self).active@.contains(k)
                    ==> self.queue@.contains(k),
                forall|k: NodeId| #[trigger] self.queue@.contains(k) && !old(self).queue@.contains(k)
                    ==> !old(self).active@.contains(k),
                0 <= i <= dependents@.len(),
                forall|k: NodeId| #[trigger] self.nodes@.contains_key(k)
                    ==> self.nodes@[k].dependency_count == lowered(
                        old(self).nodes@[k].dependency_count, occurrences(dependents@.take(i as int), k)),
                forall|k: NodeId| #[trigger] self.nodes@.contains_key(k)
                    && self.nodes@[k].dependency_count == 0
                    && old(self).nodes@[k].dependency_count > 0
                    ==> self.active@.contains(k) || self.waiting@.contains(k),
            decreases dependents@.len() - i,
        {
            let id = dependents[i];
            proof {
                assert(dependents@.take(i + 1).drop_last() =~= dependents@.take(i as int));
                assert(dependents@.take(i + 1).last() == id);
            }
            let ghost start = self.nodes@;
            let ghost start_active = self.active@;
            let ghost start_waiting = self.waiting@;
            let blocked = match self.nodes.get(&id) {
                Some(node) => node.dependency_count > 0,
                None => false,
            };
            if !self.active.contains(&id) && blocked {
                let ghost s0 = *self;
                let mut node = self.nodes.remove(&id).unwrap();
                let ghost before = self.nodes@.insert(id, node);
                node.dependency_count = node.dependency_count - 1;
                let free = node.dependency_count == 0;
                proof {
                    assert(!s0.waiting@.contains(id));
                    let s1 = *self;
                    assert forall|w: NodeId| #[trigger] s1.waiting@.contains(w) implies s1.held_back(w) by {
                        assert(s0.held_back(w));
                        let a = choose|a: NodeId| s0.active@.contains(a) && #[trigger] s0.nodes@[w].mutually_excludes@.contains(a);
                        assert(s1.nodes@[w].mutually_excludes@.contains(a));
                    }
                    assert forall|w: NodeId, a: NodeId|
                        #![trigger s1.waiting@.contains(w), s1.nodes@[a].mutually_excludes@.contains(w)]
                        s1.waiting@.contains(w) && s1.active@.contains(a) && s1.nodes@[a].mutually_excludes@.contains(w)
                        implies s1.excluding@.contains_key(a) && s1.excluding@[a]@.contains(w) by {
                        assert(s0.nodes@[a].mutually_excludes@.contains(w));
                    }
                    assert forall|k: NodeId| #[trigger] s1.nodes@.contains_key(k) && s1.nodes@[k].dependency_count == 0
                        implies s1.active@.contains(k) || s1.waiting@.contains(k) by {
                        assert(s0.nodes@.contains_key(k));
                    }
                }
                let mut excluded = false;
                let mut j: usize = 0;
                while j < node.mutually_excludes.len()
                    invariant
                        self.wf(),
                        self.settled(),
                        self.nodes@ == before.remove(id),
                        !self.active@.contains(id),
                        !self.waiting@.contains(id),
                        self.active@ == start_active,
                        self.waiting@ == start_waiting,
                        self.queue@ == s0.queue@,
                        0 <= j <= node.mutually_excludes@.len(),
                        free && !excluded ==> forall|k: int|
                            0 <= k < j ==> !self.active@.contains(
                                #[trigger] node.mutually_excludes@[k],
                            ),
                        free ==> forall|k: int| 0 <= k < j && self.active@.contains(
                            #[trigger] node.mutually_excludes@[k]) ==> self.excluding@.contains_key(node.mutually_excludes@[k])
                            && self.excluding@[node.mutually_excludes@[k]]@.contains(id),
                        excluded ==> exists|k: int| 0 <= k < j && self.active@.contains(
                            #[trigger] node.mutually_excludes@[k]),
                    decreases node.mutually_excludes@.len() - j,
                {
                    let x = node.mutually_excludes[j];
                    if free && self.active.contains(&x) {
                        let ghost e0 = self.excluding@;
                        excluded = true;
                        self.record_excluded(x, id);
                        proof {
                            assert forall|k: int| 0 <= k < j && self.active@.contains(
                                #[trigger] node.mutually_excludes@[k]) implies self.excluding@.contains_key(node.mutually_excludes@[k])
                                && self.excluding@[node.mutually_excludes@[k]]@.contains(id) by {
                                let a = node.mutually_excludes@[k];
                                assert(e0.contains_key(a) && e0[a]@.contains(id));
                                assert(self.excluding@[a]@.contains(id));
                            }
                            assert forall|w: NodeId, a: NodeId|
                                #![trigger self.waiting@.contains(w), self.nodes@[a].mutually_excludes@.contains(w)]
                                self.waiting@.contains(w) && self.active@.contains(a) && self.nodes@[a].mutually_excludes@.contains(w)
                                implies self.excluding@.contains_key(a) && self.excluding@[a]@.contains(w) by {
                                assert(e0.contains_key(a) && e0[a]@.contains(w));
                                assert(self.excluding@[a]@.contains(w));
                            }
                            assert(self.active@.contains(node.mutually_excludes@[j as int]));
                        }
                    }
                    j = j + 1;
                }
                self.nodes.insert(id, node);
                proof {
                    assert(self.nodes@ == before.insert(id, node));
                    assert(symmetric(self.nodes@));
                    assert(irreflexive(self.nodes@));
                    assert(self.nodes@.dom() =~= old(self).nodes@.dom());
                    assert forall|k: NodeId| #[trigger]
                        self.nodes@.contains_key(k) implies self.nodes@[k].mutually_excludes@
                        == old(self).nodes@[k].mutually_excludes@
                        && self.nodes@[k].dependents@ == old(self).nodes@[k].dependents@ by {
                        assert(start.contains_key(k));
                        if k != id {
                            assert(self.nodes@[k] == before[k]);
                        }
                    }
                }
                let ghost t = *self;
                proof {
                    assert forall|w: NodeId| #[trigger] t.waiting@.contains(w) implies t.held_back(w) by {
                        assert(s0.held_back(w));
                        let a = choose|a: NodeId| s0.active@.contains(a) && #[trigger] s0.nodes@[w].mutually_excludes@.contains(a);
                        assert(t.nodes@[w].mutually_excludes@.contains(a));
                    }
                }
                if free {
                    if excluded {
                        self.waiting.insert(id);
                        proof {
                            let k = choose|k: int| 0 <= k < node.mutually_excludes@.len() && self.active@.contains(
                                #[trigger] node.mutually_excludes@[k]);
                            assert(self.nodes@[id].mutually_excludes@.contains(node.mutually_excludes@[k]));
                            assert forall|w: NodeId| #[trigger] self.waiting@.contains(w) implies self.held_back(w) by {
                                if w != id {
                                    assert(t.held_back(w));
                                }
                            }
                            assert forall|w: NodeId, a: NodeId|
                                #![trigger self.waiting@.contains(w), self.nodes@[a].mutually_excludes@.contains(w)]
                                self.waiting@.contains(w) && self.active@.contains(a) && self.nodes@[a].mutually_excludes@.contains(w)
                                implies self.excluding@.contains_key(a) && self.excluding@[a]@.contains(w) by {
                                if w == id {
                                    assert(self.nodes@[id].mutually_excludes@.contains(a));
                                    let k = node.mutually_excludes@.index_of(a);
                                    assert(node.mutually_excludes@[k] == a);
                                } else {
                                    assert(t.waiting@.contains(w));
                                }
                            }
                        }
                    } else {
                        proof {
                            assert forall|x: NodeId| #[trigger]
                                self.nodes@[id].mutually_excludes@.contains(x) implies !self.active@.contains(x) by {
                                let k = node.mutually_excludes@.index_of(x);
                                assert(node.mutually_excludes@[k] == x);
                            }
                        }
                        self.add_to_queue(id);
                        let still_waiting = match self.nodes.get(&id) {
                            Some(queued) => self.waiting_among(&queued.mutually_excludes),
                            None => Vec::new(),
                        };
                        self.excluding.insert(id, still_waiting);
                        proof {
                            assert(self.queue@.take(old(self).queue@.len() as int) =~= t.queue@.take(old(self).queue@.len() as int));
                            assert forall|k: NodeId| #[trigger] self.active@.contains(k) && !old(self).active@.contains(k)
                                implies self.queue@.contains(k) by {
                                lemma_push_contains(t.queue@, id, k);
                            }
                            assert forall|k: NodeId| #[trigger] self.queue@.contains(k) && !old(self).queue@.contains(k)
                                implies !old(self).active@.contains(k) by {
                                lemma_push_contains(t.queue@, id, k);
                            }
                            assert forall|w: NodeId| #[trigger] self.waiting@.contains(w) implies self.held_back(w) by {
                                assert(t.held_back(w));
                                let a = choose|a: NodeId| t.active@.contains(a) && #[trigger] t.nodes@[w].mutually_excludes@.contains(a);
                                assert(self.nodes@[w].mutually_excludes@.contains(a));
                            }
                            assert forall|w: NodeId, a: NodeId|
                                #![trigger self.waiting@.contains(w), self.nodes@[a].mutually_excludes@.contains(w)]
                                self.waiting@.contains(w) && self.active@.contains(a) && self.nodes@[a].mutually_excludes@.contains(w)
                                implies self.excluding@.contains_key(a) && self.excluding@[a]@.contains(w) by {
                                if a != id {
                                    assert(t.waiting@.contains(w) && t.active@.contains(a));
                                }
                            }
                        }
                    }
                } else {
                    proof {
                        assert forall|w: NodeId, a: NodeId|
                            #![trigger self.waiting@.contains(w), self.nodes@[a].mutually_excludes@.contains(w)]
                            self.waiting@.contains(w) && self.active@.contains(a) && self.nodes@[a].mutually_excludes@.contains(w)
                            implies self.excluding@.contains_key(a) && self.excluding@[a]@.contains(w) by {
                            assert(s0.nodes@[a].mutually_excludes@.contains(w));
                        }
                        assert forall|k: NodeId| #[trigger] self.nodes@.contains_key(k) && self.nodes@[k].dependency_count == 0
                            implies self.active@.contains(k) || self.waiting@.contains(k) by {
                            assert(s0.nodes@.contains_key(k));
                        }
                    }
                }
            }
            proof {
                assert forall|k: NodeId| #[trigger] self.nodes@.contains_key(k)
                    implies self.nodes@[k].dependency_count == lowered(
                        old(self).nodes@[k].dependency_count, occurrences(dependents@.take(i + 1), k)) by {
                    assert(start.contains_key(k));
                    if k != id {
                        assert(self.nodes@[k].dependency_count == start[k].dependency_count);
                    } else if start_active.contains(k) {
                        assert(start[k].dependency_count == 0);
                    }
                }
                assert forall|k: NodeId| #[trigger] self.nodes@.contains_key(k)
                    && self.nodes@[k].dependency_count == 0
                    && old(self).nodes@[k].dependency_count > 0
                    implies self.active@.contains(k) || self.waiting@.contains(k) by {
                    assert(start.contains_key(k));
                    if k != id || start[k].dependency_count == 0 {
                        assert(start_active.contains(k) || start_waiting.contains(k));
                    }
                }
            }
            i = i + 1;
        }
        proof {
            assert(dependents@.take(i as int) =~= dependents@);
        }
    }

    /// The node was handed out by `next` and may be completed: it is in the graph, active, no
    /// longer queued and waits on no dependency. Completing any other node is a broken run.
    pub open spec fn can_complete(&self, id: NodeId) -> bool {
        &&& self.nodes().contains_key(id)
        &&& self.nodes()[id].dependency_count == 0
        &&& self.active().contains(id)
        &&& !self.queue().contains(id)
    }

    /// What is wrong with completing `id`, if anything.
    pub fn completion_error(&self, id: NodeId) -> (r: Option<CompletionError>)
        ensures
            r is None <==> self.can_complete(id),
            r == Some(CompletionError::UnknownNode) <==> !self.nodes().contains_key(id),
            r == Some(CompletionError::StillBlocked) <==> self.nodes().contains_key(id)
                && self.nodes()[id].dependency_count > 0,
            r == Some(CompletionError::NotActive) <==> self.nodes().contains_key(id)
                && self.nodes()[id].dependency_count == 0 && (!self.active().contains(id)
                || self.queue().contains(id)),
    {
        match self.nodes.get(&id) {
            None => return Some(CompletionError::UnknownNode),
            Some(node) => {
                if node.dependency_count > 0 {
                    return Some(CompletionError::StillBlocked);
                }
            },
        }
        if !self.active.contains(&id) || self.is_queued(id) {
            return Some(CompletionError::NotActive);
        }
        None
    }

    /// `w` is held back: some active node excludes it.
    pub closed spec fn held_back(&self, w: NodeId) -> bool {
        exists|a: NodeId| self.active@.contains(a) && #[trigger] self.nodes@[w].mutually_excludes@.contains(a)
    }

    /// What `held_back` means, over the public views.
    pub proof fn lemma_held_back(&self, w: NodeId)
        ensures
            self.held_back(w) <==> exists|a: NodeId| self.active().contains(a)
                && #[trigger] self.nodes()[w].mutually_excludes@.contains(a),
    {
        if self.held_back(w) {
            let a = choose|a: NodeId| self.active@.contains(a) && #[trigger] self.nodes@[w].mutually_excludes@.contains(a);
            assert(self.active().contains(a) && self.nodes()[w].mutually_excludes@.contains(a));
        }
        if exists|a: NodeId| self.active().contains(a) && #[trigger] self.nodes()[w].mutually_excludes@.contains(a) {
            let a = choose|a: NodeId| self.active().contains(a) && #[trigger] self.nodes()[w].mutually_excludes@.contains(a);
            assert(self.nodes@[w].mutually_excludes@.contains(a));
        }
    }

    /// Marks a handed-out node as done, removes it from the graph, and makes ready what it was
    /// holding back: its dependents and the nodes it excluded. A released node (its count
    /// reached zero, or it was waiting) is appended to the queue exactly when no active node
    /// excludes it; otherwise it waits.
    pub fn complete_node(&mut self, id: NodeId)
        requires
            old(self).wf(),
            old(self).settled(),
            old(self).can_complete(id),
        ensures
            final(self).wf(),
            final(self).settled(),
            same_edges(final(self).nodes(), old(self).nodes().remove(id)),
            !final(self).active().contains(id),
            old(self).active().remove(id).subset_of(final(self).active()),
            extends(old(self).queue(), final(self).queue()),
            forall|k: NodeId| #[trigger] final(self).nodes().contains_key(k)
                ==> final(self).nodes()[k].dependency_count == lowered(
                    old(self).nodes()[k].dependency_count, occurrences(old(self).nodes()[id].dependents@, k)),
            forall|k: NodeId| #[trigger] final(self).nodes().contains_key(k)
                && ((final(self).nodes()[k].dependency_count == 0
                && old(self).nodes()[k].dependency_count > 0) || old(self).waiting().contains(k))
                ==> (final(self).queue().contains(k) <==> !final(self).held_back(k))
                && (final(self).queue().contains(k) || final(self).waiting().contains(k)),
            final(self).queue().no_duplicates(),
            !final(self).waiting().contains(id),
            forall|k: NodeId| #[trigger] final(self).active().contains(k) <==> (old(self).active().remove(id).contains(k)
                || (final(self).queue().contains(k) && !old(self).queue().contains(k))),
            forall|k: NodeId| #[trigger] final(self).queue().contains(k) && !old(self).queue().contains(k)
                ==> final(self).nodes().contains_key(k) && !final(self).held_back(k)
                && ((old(self).nodes()[k].dependency_count > 0 && final(self).nodes()[k].dependency_count == 0)
                || old(self).waiting().contains(k)),
    {
        let node = self.nodes.remove(&id).unwrap();
        let held = match self.excluding.remove(&id) {
            Some(held) => held,
            None => Vec::new(),
        };
        self.active.remove(&id);
        proof {
            let s = *self;
            assert forall|a: NodeId, b: NodeId|
                s.active@.contains(a) && s.active@.contains(b) implies !s.nodes@[a].mutually_excludes@.contains(b)
                by {
                assert(old(self).active@.contains(a) && old(self).active@.contains(b));
            }
            assert forall|k: int| 0 <= k < s.queue@.len() implies #[trigger]
                s.active@.contains(s.queue@[k]) by {
                assert(old(self).active@.contains(s.queue@[k]));
            }
            assert forall|a: NodeId| #[trigger]
                s.active@.contains(a) implies s.nodes@.contains_key(a)
                && s.nodes@[a].dependency_count == 0 by {
                assert(old(self).active@.contains(a));
            }
            assert(symmetric(s.nodes@));
            let o = *old(self);
            assert forall|w: NodeId| #[trigger] s.waiting@.contains(w) implies s.nodes@.contains_key(w)
                && s.nodes@[w].dependency_count == 0 && !s.active@.contains(w) by {
                assert(o.waiting@.contains(w));
            }
            assert forall|w: NodeId, a: NodeId|
                #![trigger s.waiting@.contains(w), s.nodes@[a].mutually_excludes@.contains(w)]
                s.waiting@.contains(w) && s.active@.contains(a) && s.nodes@[a].mutually_excludes@.contains(w)
                implies s.excluding@.contains_key(a) && s.excluding@[a]@.contains(w) by {
                assert(o.waiting@.contains(w) && o.active@.contains(a));
            }
            assert forall|k: NodeId| #[trigger] s.nodes@.contains_key(k) && s.nodes@[k].dependency_count == 0
                implies s.active@.contains(k) || s.waiting@.contains(k) by {
                assert(o.nodes@.contains_key(k));
            }
            assert forall|w: NodeId| #[trigger] s.waiting@.contains(w) implies s.held_back(w)
                || held@.contains(w) by {
                assert(o.waiting@.contains(w));
                assert(o.held_back(w));
                let a = choose|a: NodeId| o.active@.contains(a) && #[trigger] o.nodes@[w].mutually_excludes@.contains(a);
                if a == id {
                    assert(o.nodes@[id].mutually_excludes@.contains(w));
                    assert(o.excluding@[id]@.contains(w));
                } else {
                    assert(s.nodes@[w].mutually_excludes@.contains(a));
                }
            }
        }
        let ghost removed = self.nodes@;
        let ghost active_after = self.active@;
        let ghost q0 = self.queue@;
        self.release_excluded(&held);
        let ghost mid = self.nodes@;
        let ghost q1 = self.queue@;
        let ghost a1 = self.active@;
        self.release_dependents(&node.dependents);
        proof {
            assert(q0 == old(self).queue@);
            assert(old(self).queue@.take(old(self).queue@.len() as int) =~= old(self).queue@);
            lemma_extends_trans(old(self).queue@, q1, self.queue@);
            assert forall|k: NodeId| #[trigger] self.nodes@.contains_key(k)
                implies self.nodes@[k].dependency_count == lowered(
                    old(self).nodes@[k].dependency_count, occurrences(node.dependents@, k)) by {
                assert(mid.contains_key(k));
                assert(removed.contains_key(k));
            }
            assert forall|k: NodeId| #[trigger] self.nodes@.contains_key(k)
                && self.nodes@[k].dependency_count == 0
                && old(self).nodes@[k].dependency_count > 0
                implies self.active@.contains(k) || self.waiting@.contains(k) by {
                assert(mid.contains_key(k));
                assert(removed.contains_key(k));
            }
            assert(!self.nodes@.contains_key(id));
            assert(!self.active@.contains(id));
            assert forall|k: NodeId| #[trigger] self.nodes@.contains_key(k)
                && ((self.nodes@[k].dependency_count == 0
                && old(self).nodes@[k].dependency_count > 0) || old(self).waiting@.contains(k))
                implies (self.queue@.contains(k) <==> !self.held_back(k))
                && (self.queue@.contains(k) || self.waiting@.contains(k)) by {
                assert(removed.contains_key(k));
                assert(!old(self).active@.contains(k));
                assert(!active_after.contains(k));
                if self.queue@.contains(k) {
                    let j = self.queue@.index_of(k);
                    assert(self.active@.contains(self.queue@[j]));
                    if self.held_back(k) {
                        let a = choose|a: NodeId| self.active@.contains(a) && #[trigger] self.nodes@[k].mutually_excludes@.contains(a);
                        assert(self.active@.contains(k) && self.active@.contains(a));
                    }
                }
                if self.waiting@.contains(k) {
                    assert(!self.active@.contains(k));
                    if self.queue@.contains(k) {
                        let j = self.queue@.index_of(k);
                        assert(self.active@.contains(self.queue@[j]));
                    }
                }
                if !self.waiting@.contains(k) {
                    assert(self.nodes@[k].dependency_count == 0);
                    assert(self.active@.contains(k));
                    if a1.contains(k) {
                        assert(q1.contains(k));
                        let j = q1.index_of(k);
                        assert(self.queue@.take(q1.len() as int)[j] == k);
                        assert(self.queue@[j] == k);
                    }
                }
            }
            assert(!self.waiting@.contains(id));
            assert forall|k: NodeId| #[trigger] self.queue@.contains(k) && !q1.contains(k)
                implies !a1.contains(k) by {}
            assert forall|k: NodeId| q1.contains(k) implies #[trigger] self.queue@.contains(k) by {
                let j = q1.index_of(k);
                assert(self.queue@.take(q1.len() as int)[j] == k);
                assert(self.queue@[j] == k);
            }
            assert forall|k: NodeId| #[trigger] self.active@.contains(k) <==> (old(self).active@.remove(id).contains(k)
                || (self.queue@.contains(k) && !old(self).queue@.contains(k))) by {
                if self.active@.contains(k) && !old(self).active@.remove(id).contains(k) {
                    assert(k != id);
                    assert(!active_after.contains(k));
                    if a1.contains(k) {
                        assert(q1.contains(k));
                    }
                    if old(self).queue@.contains(k) {
                        let j = old(self).queue@.index_of(k);
                        assert(old(self).active@.contains(old(self).queue@[j]));
                    }
                }
                if self.queue@.contains(k) {
                    let j = self.queue@.index_of(k);
                    assert(self.active@.contains(self.queue@[j]));
                }
                if old(self).active@.remove(id).contains(k) {
                    assert(active_after.contains(k));
                }
            }
            assert forall|k: NodeId| #[trigger] self.queue@.contains(k) && !old(self).queue@.contains(k)
                implies self.nodes@.contains_key(k) && !self.held_back(k)
                && ((old(self).nodes@[k].dependency_count > 0 && self.nodes@[k].dependency_count == 0)
                || old(self).waiting@.contains(k)) by {
                let j = self.queue@.index_of(k);
                assert(self.active@.contains(self.queue@[j]));
                assert(self.nodes@.contains_key(k));
                assert(removed.contains_key(k));
                assert(k != id);
                if q1.contains(k) {
                    assert(!active_after.contains(k));
                } else {
                    assert(!a1.contains(k));
                    assert(!active_after.contains(k));
                }
                assert(!old(self).active@.contains(k));
                if self.held_back(k) {
                    let a = choose|a: NodeId| self.active@.contains(a) && #[trigger] self.nodes@[k].mutually_excludes@.contains(a);
                    assert(self.active@.contains(k) && self.active@.contains(a));
                }
                if old(self).nodes@[k].dependency_count == 0 {
                    assert(old(self).nodes@.contains_key(k));
                }
            }
        }
    }

}


/// The dependency count of `id`, zero for an unknown node.
pub open spec fn count_of(nodes: Map<NodeId, Node>, id: NodeId) -> nat {
    if nodes.contains_key(id) {
        nodes[id].dependency_count as nat
    } else {
        0
    }
}

/// The dependents of `id`, none for an unknown node.
pub open spec fn dependents_of(nodes: Map<NodeId, Node>, id: NodeId) -> Seq<NodeId> {
    if nodes.contains_key(id) {
        nodes[id].dependents@
    } else {
        Seq::empty()
    }
}

/// The nodes that `id` excludes, none for an unknown node.
pub open spec fn excluded_by(nodes: Map<NodeId, Node>, id: NodeId) -> Set<NodeId> {
    if nodes.contains_key(id) {
        nodes[id].mutually_excludes@.to_set()
    } else {
        Set::empty()
    }
}

/// Whether `x` occurs in `v`.
fn contains_id(v: &Vec<NodeId>, x: NodeId) -> (r: bool)
    ensures
        r == v@.contains(x),
{
    let mut i: usize = 0;
    while i < v.len()
        invariant
            0 <= i <= v@.len(),
            forall|j: int| 0 <= j < i ==> v@[j] != x,
        decreases v@.len() - i,
    {
        if v[i] == x {
            proof {
                assert(v@[i as int] == x);
            }
            return true;
        }
        i = i + 1;
    }
    false
}

pub proof fn lemma_push_contains(s: Seq<NodeId>, x: NodeId, y: NodeId)
    ensures
        s.push(x).contains(y) <==> (s.contains(y) || y == x),
{
    if s.contains(y) {
        let j = s.index_of(y);
        assert(s.push(x)[j] == y);
    }
    if y == x {
        assert(s.push(x)[s.len() as int] == x);
    }
    if s.push(x).contains(y) && y != x {
        let j = s.push(x).index_of(y);
        assert(s[j] == y);
    }
}

/// The dependency count that a node has once the graph is sealed: a node with no declared
/// dependency waits on the start node.
pub open spec fn sealed_count(count: usize) -> usize {
    if count == 0 {
        1
    } else {
        count
    }
}

/// Once every node has completed, nothing is queued and no exclusion is pending, so `next`
/// answers `Completed`; while a node remains, it does not.
pub proof fn lemma_finished_iff_no_node_left(s: &Schedule)
    requires
        s.wf(),
    ensures
        s.nodes().is_empty() <==> (s.queue().len() == 0 && s.nodes().is_empty()
            && s.pending_exclusions().is_empty()),
        s.nodes().is_empty() ==> s.active().is_empty(),
{
    if s.nodes().is_empty() {
        if s.queue().len() > 0 {
            s.lemma_queued_are_active(0);
            s.lemma_active_are_nodes(s.queue()[0]);
        }
        assert(s.pending_exclusions() =~= Set::empty()) by {
            assert forall|a: NodeId| !#[trigger] s.pending_exclusions().contains(a) by {
                if s.pending_exclusions().contains(a) {
                    s.lemma_pending_are_active(a);
                    s.lemma_active_are_nodes(a);
                }
            }
        }
        assert(s.active() =~= Set::empty()) by {
            assert forall|a: NodeId| !#[trigger] s.active().contains(a) by {
                if s.active().contains(a) {
                    s.lemma_active_are_nodes(a);
                }
            }
        }
    }
}

/// Exclusions alone never stall a run: when no node is active, no node is waiting on an
/// exclusion, so every node left still has an unfinished dependency. In particular a schedule
/// is `stalled` only when every remaining node is blocked by a dependency.
pub proof fn lemma_stall_only_on_dependencies(s: &Schedule)
    requires
        s.wf(),
        s.settled(),
        s.active().is_empty(),
    ensures
        s.waiting().is_empty(),
        forall|k: NodeId| #[trigger] s.nodes().contains_key(k) ==> s.nodes()[k].dependency_count > 0,
{
    assert forall|w: NodeId| !#[trigger] s.waiting().contains(w) by {
        if s.waiting@.contains(w) {
            assert(s.held_back(w));
            let a = choose|a: NodeId| s.active@.contains(a) && #[trigger] s.nodes@[w].mutually_excludes@.contains(a);
            assert(s.active().contains(a));
        }
    }
    assert(s.waiting() =~= Set::empty());
    assert forall|k: NodeId| #[trigger] s.nodes().contains_key(k) implies s.nodes()[k].dependency_count > 0 by {
        if s.nodes@[k].dependency_count == 0 {
            assert(s.nodes@.contains_key(k));
            assert(!s.waiting().contains(k));
            assert(!s.active().contains(k));
        }
    }
}

/// Registers nodes, dependencies and exclusions, then seals them into a [`Schedule`].
pub struct ScheduleBuilder {
    nodes: HashMap<NodeId, Node>,
    /// Every registered id, in order of registration.
    order: Vec<NodeId>,
}

impl ScheduleBuilder {
    /// The nodes registered so far.
    pub closed spec fn nodes(&self) -> Map<NodeId, Node> {
        self.nodes@
    }

    pub closed spec fn wf(&self) -> bool {
        &&& symmetric(self.nodes@)
        &&& irreflexive(self.nodes@)
        &&& !self.nodes@.contains_key(START_NODE)
        &&& forall|k: NodeId, x: NodeId|
            #![trigger self.nodes@[k].mutually_excludes@.contains(x)]
            self.nodes@.contains_key(k) && self.nodes@[k].mutually_excludes@.contains(x)
                ==> self.nodes@.contains_key(x)
        &&& forall|k: NodeId| #[trigger] self.nodes@.contains_key(k) ==> self.order@.contains(k)
    }

    pub fn new() -> (r: ScheduleBuilder)
        ensures
            r.wf(),
            r.nodes().is_empty(),
    {
        let r = ScheduleBuilder { nodes: HashMap::new(), order: Vec::new() };
        proof {
            assert(r.nodes@ =~= Map::empty());
        }
        r
    }

    /// The start node is never registered by hand.
    pub proof fn lemma_no_start(&self)
        requires
            self.wf(),
        ensures
            !self.nodes().contains_key(START_NODE),
    {
    }

    /// Whether a node with this id is registered.
    pub fn contains(&self, id: NodeId) -> (r: bool)
        ensures
            r == self.nodes().contains_key(id),
    {
        self.nodes.contains_key(&id)
    }

    /// Registers `id` with no edges, unless it is already there.
    fn entry(&mut self, id: NodeId)
        requires
            old(self).wf(),
            id != START_NODE,
        ensures
            final(self).wf(),
            final(self).nodes@.dom() == old(self).nodes@.dom().insert(id),
            forall|k: NodeId| #[trigger]
                old(self).nodes@.contains_key(k) ==> final(self).nodes@[k] == old(self).nodes@[k],
            !old(self).nodes@.contains_key(id) ==> final(self).nodes@[id].dependency_count == 0
                && final(self).nodes@[id].dependents@.len() == 0
                && final(self).nodes@[id].mutually_excludes@.len() == 0,
    {
        if !self.nodes.contains_key(&id) {
            self.nodes.insert(id, Node::new());
            self.order.push(id);
            proof {
                assert forall|a: NodeId, b: NodeId|
                    #![trigger self.nodes@[a].mutually_excludes@.contains(b), self.nodes@[b]]
                    self.nodes@.contains_key(a) && self.nodes@.contains_key(b)
                        && self.nodes@[a].mutually_excludes@.contains(b)
                    implies self.nodes@[b].mutually_excludes@.contains(a) by {
                    if a == id {
                        assert(self.nodes@[a].mutually_excludes@.len() == 0);
                    } else if b == id {
                        assert(old(self).nodes@[a].mutually_excludes@.contains(b));
                    }
                }
                assert(self.order@.last() == id);
                assert forall|k: NodeId| #[trigger] self.nodes@.contains_key(k) implies self.order@.contains(k) by {
                    if k != id {
                        assert(old(self).order@.contains(k));
                        let j = old(self).order@.index_of(k);
                        assert(self.order@[j] == k);
                    } else {
                        assert(self.order@[self.order@.len() - 1] == id);
                    }
                }
            }
        } else {
            proof {
                assert(self.nodes@.dom() =~= old(self).nodes@.dom().insert(id));
            }
        }
    }

    /// Makes sure that a node with this id exists.
    pub fn register_node(&mut self, id: NodeId)
        requires
            old(self).wf(),
            id != START_NODE,
        ensures
            final(self).wf(),
            final(self).nodes().dom() == old(self).nodes().dom().insert(id),
            forall|k: NodeId| #[trigger]
                old(self).nodes().contains_key(k) ==> final(self).nodes()[k] == old(self).nodes()[k],
            count_of(final(self).nodes(), id) == count_of(old(self).nodes(), id),
            dependents_of(final(self).nodes(), id) == dependents_of(old(self).nodes(), id),
            excluded_by(final(self).nodes(), id) == excluded_by(old(self).nodes(), id),
    {
        self.entry(id);
        proof {
            if !old(self).nodes@.contains_key(id) {
                assert(self.nodes@[id].dependents@ =~= Seq::empty());
                assert(self.nodes@[id].mutually_excludes@.to_set() =~= Set::empty());
            }
        }
    }

    /// Adds an edge: `child` depends on `parent`, so it cannot start before `parent` completes.
    pub fn add_dependency(&mut self, parent: NodeId, child: NodeId)
        requires
            old(self).wf(),
            parent != START_NODE,
            child != START_NODE,
            count_of(old(self).nodes(), child) < usize::MAX,
        ensures
            final(self).wf(),
            final(self).nodes().dom() == old(self).nodes().dom().insert(parent).insert(child),
            count_of(final(self).nodes(), child) == count_of(old(self).nodes(), child) + 1,
            dependents_of(final(self).nodes(), parent) == dependents_of(old(self).nodes(), parent).push(child),
            forall|k: NodeId| #![trigger count_of(final(self).nodes(), k)]
                k != child ==> count_of(final(self).nodes(), k) == count_of(old(self).nodes(), k),
            forall|k: NodeId| #![trigger dependents_of(final(self).nodes(), k)]
                k != parent ==> dependents_of(final(self).nodes(), k) == dependents_of(old(self).nodes(), k),
            forall|k: NodeId| #![trigger excluded_by(final(self).nodes(), k)]
                excluded_by(final(self).nodes(), k) == excluded_by(old(self).nodes(), k),
    {
        self.entry(child);
        let ghost mid = self.nodes@;
        if let Some(mut node) = self.nodes.remove(&child) {
            node.dependency_count = node.dependency_count + 1;
            self.nodes.insert(child, node);
        }
        proof {
            assert(self.nodes@.dom() =~= mid.dom());
            assert forall|a: NodeId, b: NodeId|
                #![trigger self.nodes@[a].mutually_excludes@.contains(b), self.nodes@[b]]
                self.nodes@.contains_key(a) && self.nodes@.contains_key(b)
                    && self.nodes@[a].mutually_excludes@.contains(b)
                implies self.nodes@[b].mutually_excludes@.contains(a) by {
                assert(mid[a].mutually_excludes@.contains(b));
            }
            assert forall|k: NodeId, x: NodeId|
                #![trigger self.nodes@[k].mutually_excludes@.contains(x)]
                self.nodes@.contains_key(k) && self.nodes@[k].mutually_excludes@.contains(x)
                implies self.nodes@.contains_key(x) by {
                assert(mid[k].mutually_excludes@.contains(x));
            }
            assert forall|k: NodeId| #[trigger] self.nodes@.contains_key(k) implies !self.nodes@[k].mutually_excludes@.contains(k) by {
                assert(mid.contains_key(k));
            }
        }
        self.entry(parent);
        let ghost mid2 = self.nodes@;
        if let Some(mut node) = self.nodes.remove(&parent) {
            node.dependents.push(child);
            self.nodes.insert(parent, node);
        }
        proof {
            assert(self.nodes@.dom() =~= mid2.dom());
            assert(self.nodes@.dom() =~= old(self).nodes@.dom().insert(parent).insert(child));
            assert forall|a: NodeId, b: NodeId|
                #![trigger self.nodes@[a].mutually_excludes@.contains(b), self.nodes@[b]]
                self.nodes@.contains_key(a) && self.nodes@.contains_key(b)
                    && self.nodes@[a].mutually_excludes@.contains(b)
                implies self.nodes@[b].mutually_excludes@.contains(a) by {
                assert(mid2[a].mutually_excludes@.contains(b));
            }
            assert forall|k: NodeId, x: NodeId|
                #![trigger self.nodes@[k].mutually_excludes@.contains(x)]
                self.nodes@.contains_key(k) && self.nodes@[k].mutually_excludes@.contains(x)
                implies self.nodes@.contains_key(x) by {
                assert(mid2[k].mutually_excludes@.contains(x));
            }
            assert forall|k: NodeId| #[trigger] self.nodes@.contains_key(k) implies !self.nodes@[k].mutually_excludes@.contains(k) by {
                assert(mid2.contains_key(k));
            }
            assert forall|k: NodeId| #![trigger count_of(self.nodes@, k)]
                k != child implies count_of(self.nodes@, k) == count_of(old(self).nodes@, k) by {
                if old(self).nodes@.contains_key(k) {
                    assert(mid.contains_key(k));
                }
            }
            assert forall|k: NodeId| #![trigger dependents_of(self.nodes@, k)]
                k != parent implies dependents_of(self.nodes@, k) == dependents_of(old(self).nodes@, k) by {
                if old(self).nodes@.contains_key(k) {
                    assert(mid.contains_key(k));
                }
                if k == child && !old(self).nodes@.contains_key(k) {
                    assert(mid[k].dependents@ =~= Seq::empty());
                }
            }
            if old(self).nodes@.contains_key(parent) {
                assert(mid.contains_key(parent));
                assert(mid2[parent].dependents@ == old(self).nodes@[parent].dependents@);
            } else {
                if parent != child {
                    assert(mid2[parent].dependents@ =~= Seq::empty());
                } else {
                    assert(mid[parent].dependents@ =~= Seq::empty());
                }
            }
            assert forall|k: NodeId| #![trigger excluded_by(self.nodes@, k)]
                excluded_by(self.nodes@, k) == excluded_by(old(self).nodes@, k) by {
                if old(self).nodes@.contains_key(k) {
                    assert(mid.contains_key(k));
                } else if self.nodes@.contains_key(k) {
                    if k == child {
                        assert(mid[k].mutually_excludes@.to_set() =~= Set::empty());
                    } else {
                        assert(mid2[k].mutually_excludes@.to_set() =~= Set::empty());
                    }
                }
            }
        }
    }


    /// Adds `b` to the exclusions of `a` if it is not there yet; nothing else changes.
    fn push_exclusion(&mut self, a: NodeId, b: NodeId)
        requires
            old(self).nodes@.contains_key(a),
        ensures
            final(self).order@ == old(self).order@,
            final(self).nodes@.dom() == old(self).nodes@.dom(),
            final(self).nodes@[a].mutually_excludes@.to_set()
                == old(self).nodes@[a].mutually_excludes@.to_set().insert(b),
            final(self).nodes@[a].dependents@ == old(self).nodes@[a].dependents@,
            final(self).nodes@[a].dependency_count == old(self).nodes@[a].dependency_count,
            forall|k: NodeId| #[trigger]
                final(self).nodes@.contains_key(k) && k != a ==> final(self).nodes@[k] == old(self).nodes@[k],
    {
        let ghost start = self.nodes@;
        if let Some(mut node) = self.nodes.remove(&a) {
            let ghost before = node.mutually_excludes@;
            if !contains_id(&node.mutually_excludes, b) {
                node.mutually_excludes.push(b);
                proof {
                    assert(node.mutually_excludes@.to_set() =~= before.to_set().insert(b)) by {
                        assert forall|x: NodeId| node.mutually_excludes@.contains(x) <==> before.contains(x) || x == b by {
                            if before.contains(x) {
                                let j = before.index_of(x);
                                assert(node.mutually_excludes@[j] == x);
                            }
                            if x == b {
                                assert(node.mutually_excludes@[before.len() as int] == b);
                            }
                            if node.mutually_excludes@.contains(x) && x != b {
                                let j = node.mutually_excludes@.index_of(x);
                                assert(before[j] == x);
                            }
                        }
                    }
                }
            } else {
                proof {
                    assert(before.to_set() =~= before.to_set().insert(b));
                }
            }
            self.nodes.insert(a, node);
        }
        proof {
            assert(self.nodes@.dom() =~= start.dom());
        }
    }

    /// Marks `a` and `b` as never active at the same time.
    pub fn add_exclusion(&mut self, a: NodeId, b: NodeId)
        requires
            old(self).wf(),
            a != b,
            a != START_NODE,
            b != START_NODE,
        ensures
            final(self).wf(),
            final(self).nodes().dom() == old(self).nodes().dom().insert(a).insert(b),
            excluded_by(final(self).nodes(), a) == excluded_by(old(self).nodes(), a).insert(b),
            excluded_by(final(self).nodes(), b) == excluded_by(old(self).nodes(), b).insert(a),
            forall|k: NodeId| #![trigger excluded_by(final(self).nodes(), k)]
                k != a && k != b ==> excluded_by(final(self).nodes(), k) == excluded_by(old(self).nodes(), k),
            forall|k: NodeId| #![trigger count_of(final(self).nodes(), k)]
                count_of(final(self).nodes(), k) == count_of(old(self).nodes(), k),
            forall|k: NodeId| #![trigger dependents_of(final(self).nodes(), k)]
                dependents_of(final(self).nodes(), k) == dependents_of(old(self).nodes(), k),
    {
        self.entry(a);
        self.entry(b);
        let ghost mid = self.nodes@;
        self.push_exclusion(a, b);
        let ghost mid2 = self.nodes@;
        self.push_exclusion(b, a);
        proof {
            let n = self.nodes@;
            assert forall|k: NodeId| n.contains_key(k) implies #[trigger] n[k].mutually_excludes@.to_set()
                == if k == a { mid[a].mutually_excludes@.to_set().insert(b) } else if k == b {
                    mid[b].mutually_excludes@.to_set().insert(a) } else { mid[k].mutually_excludes@.to_set() }
                && n[k].dependents@ == mid[k].dependents@ && n[k].dependency_count == mid[k].dependency_count by {
                if k != a && k != b {
                    assert(n[k] == mid2[k]);
                }
            }
            assert forall|x: NodeId, y: NodeId|
                #![trigger n[x].mutually_excludes@.contains(y), n[y]]
                n.contains_key(x) && n.contains_key(y) && n[x].mutually_excludes@.contains(y)
                implies n[y].mutually_excludes@.contains(x) by {
                assert(n[x].mutually_excludes@.to_set().contains(y));
                if !((x == a && y == b) || (x == b && y == a)) {
                    assert(mid[x].mutually_excludes@.to_set().contains(y));
                    assert(mid[x].mutually_excludes@.contains(y));
                    assert(mid[y].mutually_excludes@.contains(x));
                    assert(mid[y].mutually_excludes@.to_set().contains(x));
                }
                assert(n[y].mutually_excludes@.to_set().contains(x));
            }
            assert forall|k: NodeId, x: NodeId|
                #![trigger n[k].mutually_excludes@.contains(x)]
                n.contains_key(k) && n[k].mutually_excludes@.contains(x)
                implies n.contains_key(x) by {
                assert(n[k].mutually_excludes@.to_set().contains(x));
                if x != a && x != b {
                    assert(mid[k].mutually_excludes@.to_set().contains(x));
                    assert(mid[k].mutually_excludes@.contains(x));
                }
            }
            assert forall|k: NodeId| #[trigger] n.contains_key(k) implies !n[k].mutually_excludes@.contains(k) by {
                assert(mid.contains_key(k));
                if n[k].mutually_excludes@.contains(k) {
                    assert(n[k].mutually_excludes@.to_set().contains(k));
                    assert(mid[k].mutually_excludes@.to_set().contains(k));
                    assert(mid[k].mutually_excludes@.contains(k));
                }
            }
            assert forall|k: NodeId| #![trigger excluded_by(n, k)]
                k != a && k != b implies excluded_by(n, k) == excluded_by(old(self).nodes@, k) by {
                if n.contains_key(k) {
                    assert(old(self).nodes@.contains_key(k));
                }
            }
            assert forall|k: NodeId| #![trigger count_of(n, k)]
                count_of(n, k) == count_of(old(self).nodes@, k) by {
                if n.contains_key(k) && !old(self).nodes@.contains_key(k) {
                    assert(k == a || k == b);
                }
            }
            assert forall|k: NodeId| #![trigger dependents_of(n, k)]
                dependents_of(n, k) == dependents_of(old(self).nodes@, k) by {
                if n.contains_key(k) && !old(self).nodes@.contains_key(k) {
                    assert(mid[k].dependents@ =~= Seq::empty());
                }
            }
            if !old(self).nodes@.contains_key(a) {
                assert(mid[a].mutually_excludes@.to_set() =~= Set::empty());
            }
            if !old(self).nodes@.contains_key(b) {
                assert(mid[b].mutually_excludes@.to_set() =~= Set::empty());
            }
        }
    }


    /// Seals the graph: each node without a dependency becomes a dependent of the start node,
    /// which is queued first.
    pub fn build(self) -> (r: Schedule)
        requires
            self.wf(),
        ensures
            r.wf(),
            r.settled(),
            r.waiting().is_empty(),
            r.pending_exclusions().is_empty(),
            r.nodes().dom() == self.nodes().dom().insert(START_NODE),
            r.active() == set![START_NODE],
            r.queue() == seq![START_NODE],
            r.nodes()[START_NODE].dependency_count == 0,
            r.nodes()[START_NODE].mutually_excludes@.len() == 0,
            forall|k: NodeId| #[trigger]
                r.nodes()[START_NODE].dependents@.contains(k) <==> self.nodes().contains_key(k)
                    && self.nodes()[k].dependency_count == 0,
            forall|k: NodeId| #[trigger]
                self.nodes().contains_key(k) ==> r.nodes()[k].mutually_excludes@
                    == self.nodes()[k].mutually_excludes@ && r.nodes()[k].dependents@
                    == self.nodes()[k].dependents@ && r.nodes()[k].dependency_count
                    == sealed_count(self.nodes()[k].dependency_count),
    {
        let ghost orig = self.nodes@;
        let ScheduleBuilder { mut nodes, order } = self;
        let mut roots: Vec<NodeId> = Vec::new();
        let mut i: usize = 0;
        while i < order.len()
            invariant
                0 <= i <= order@.len(),
                nodes@.dom() == orig.dom(),
                forall|k: NodeId| #[trigger]
                    nodes@.contains_key(k) ==> nodes@[k].mutually_excludes@
                        == orig[k].mutually_excludes@ && nodes@[k].dependents@ == orig[k].dependents@
                        && nodes@[k].dependency_count == if order@.take(i as int).contains(k) {
                        sealed_count(orig[k].dependency_count)
                    } else {
                        orig[k].dependency_count
                    },
                forall|k: NodeId| #[trigger]
                    roots@.contains(k) <==> orig.contains_key(k) && orig[k].dependency_count == 0
                        && order@.take(i as int).contains(k),
            decreases order@.len() - i,
        {
            let id = order[i];
            proof {
                assert(order@.take(i + 1) == order@.take(i as int).push(id));
                assert forall|k: NodeId| #[trigger] order@.take(i + 1).contains(k) <==> order@.take(
                    i as int,
                ).contains(k) || k == id by {
                    lemma_push_contains(order@.take(i as int), id, k);
                }
            }
            let ghost before = nodes@;
            let ghost roots_before = roots@;
            if let Some(mut node) = nodes.remove(&id) {
                if node.dependency_count == 0 {
                    node.dependency_count = 1;
                    roots.push(id);
                }
                nodes.insert(id, node);
                proof {
                    assert(nodes@.dom() =~= before.dom());
                    assert forall|k: NodeId| #[trigger]
                        roots@.contains(k) <==> orig.contains_key(k) && orig[k].dependency_count == 0
                            && order@.take(i + 1).contains(k) by {
                        lemma_push_contains(roots_before, id, k);
                    }
                }
            } else {
                proof {
                    assert(nodes@ =~= before);
                }
            }
            i = i + 1;
        }
        proof {
            assert(order@.take(i as int) == order@);
        }
        let start = Node { dependents: roots, mutually_excludes: Vec::new(), dependency_count: 0 };
        let ghost sealed = nodes@;
        nodes.insert(START_NODE, start);
        let mut schedule = Schedule {
            nodes,
            waiting: HashSet::new(),
            excluding: HashMap::new(),
            active: HashSet::new(),
            queue: VecDeque::new(),
        };
        proof {
            let n = schedule.nodes@;
            assert forall|a: NodeId, b: NodeId|
                #![trigger n[a].mutually_excludes@.contains(b), n[b]]
                n.contains_key(a) && n.contains_key(b) && n[a].mutually_excludes@.contains(b)
                implies n[b].mutually_excludes@.contains(a) by {
                if a != START_NODE {
                    assert(orig.contains_key(a));
                    assert(orig[a].mutually_excludes@.contains(b));
                    assert(orig.contains_key(b));
                    assert(orig[b].mutually_excludes@.contains(a));
                }
            }
            assert forall|a: NodeId| #[trigger] n.contains_key(a) implies !n[a].mutually_excludes@.contains(a) by {
                if a != START_NODE {
                    assert(orig.contains_key(a));
                }
            }
            assert(schedule.excluding@ =~= Map::empty());
        }
        schedule.add_to_queue(START_NODE);
        proof {
            assert(schedule.active@ =~= set![START_NODE]);
            assert(schedule.queue@ =~= seq![START_NODE]);
            assert forall|k: NodeId| #[trigger] schedule.nodes@.contains_key(k)
                && schedule.nodes@[k].dependency_count == 0
                implies schedule.active@.contains(k) || schedule.waiting@.contains(k) by {
                if k != START_NODE {
                    assert(sealed.contains_key(k));
                }
            }
        }
        schedule
    }

}

} // verus!
