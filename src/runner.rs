use crate::config::{
    conflicts, produced, producer_of, tests_conflict, FixtureConfig, InputRef,
    TestConfig, TypeIdentity,
};
use crate::schedule::{
    count_of, dependents_of, excluded_by, CompletionError, NextInSchedule, NodeId, Schedule, ScheduleBuilder,
    START_NODE,
};
use std::collections::HashMap;
use vstd::prelude::*;

verus! {

broadcast use vstd::std_specs::hash::group_hash_axioms;

/// Relies on uuid's `Uuid::new_v4`: a random version-4 id, as an integer. Nothing is known of
/// the value.
#[verifier::external_body]
fn random_node_id() -> (r: NodeId) {
    uuid::Uuid::new_v4().as_u128()
}

/// Why a graph could not be built; no node runs.
#[derive(Clone, Copy, Debug, PartialEq, Eq, Structural)]
pub enum BuildError {
    /// A test consumes a type that no fixture produces.
    MissingProducer(TypeIdentity),
    /// A freshly drawn node id was already in use.
    IdCollision(NodeId),
}

/// What a node of the graph runs: the test or the fixture at that index.
#[derive(Clone, Copy, Debug, PartialEq, Eq, Structural)]
pub enum NodeRole {
    Test(usize),
    Fixture(usize),
}

/// Every input of every test has a producer.
pub open spec fn all_produced<F>(tests: Seq<TestConfig<F>>, fixtures: Seq<FixtureConfig<F>>) -> bool {
    forall|i: int, k: int|
        0 <= i < tests.len() && 0 <= k < tests[i].inputs@.len() ==> #[trigger] produced(
            fixtures,
            *tests[i].inputs@[k].inner_spec(),
        )
}

/// Some input of some test is of type `t`.
pub open spec fn consumed<F>(tests: Seq<TestConfig<F>>, t: TypeIdentity) -> bool {
    exists|i: int, k: int|
        0 <= i < tests.len() && 0 <= k < tests[i].inputs@.len() && *(
        #[trigger] tests[i].inputs@[k]).inner_spec() == t
}

/// The first input type, in test order, that no fixture produces.
pub fn missing_producer<F>(tests: &Vec<TestConfig<F>>, fixtures: &Vec<FixtureConfig<F>>) -> (r:
    Option<TypeIdentity>)
    ensures
        r is None <==> all_produced(tests@, fixtures@),
        r matches Some(t) ==> consumed(tests@, t) && !produced(fixtures@, t),
{
    let mut i: usize = 0;
    while i < tests.len()
        invariant
            0 <= i <= tests@.len(),
            forall|x: int, k: int|
                0 <= x < i && 0 <= k < tests@[x].inputs@.len() ==> #[trigger] produced(
                    fixtures@,
                    *tests@[x].inputs@[k].inner_spec(),
                ),
        decreases tests@.len() - i,
    {
        let mut k: usize = 0;
        while k < tests[i].inputs.len()
            invariant
                0 <= i < tests@.len(),
                0 <= k <= tests@[i as int].inputs@.len(),
                forall|x: int, k: int|
                    0 <= x < i && 0 <= k < tests@[x].inputs@.len() ==> #[trigger] produced(
                        fixtures@,
                        *tests@[x].inputs@[k].inner_spec(),
                    ),
                forall|y: int|
                    0 <= y < k ==> #[trigger] produced(
                        fixtures@,
                        *tests@[i as int].inputs@[y].inner_spec(),
                    ),
            decreases tests@[i as int].inputs@.len() - k,
        {
            let t = tests[i].inputs[k].id();
            if producer_of(fixtures, t).is_none() {
                proof {
                    assert(*(tests@[i as int].inputs@[k as int]).inner_spec() == t);
                }
                return Some(t);
            }
            k = k + 1;
        }
        i = i + 1;
    }
    None
}

/// `x` occurs twice in `ids`.
pub open spec fn repeated(ids: Seq<NodeId>, x: NodeId) -> bool {
    exists|a: int, c: int| 0 <= a < c < ids.len() && #[trigger] ids[a] == x && #[trigger] ids[c] == x
}

/// The ids are pairwise distinct and none is the start node.
pub open spec fn usable_ids(ids: Seq<NodeId>) -> bool {
    &&& forall|a: int, c: int| 0 <= a < c < ids.len() ==> #[trigger] ids[a] != #[trigger] ids[c]
    &&& forall|a: int| 0 <= a < ids.len() ==> #[trigger] ids[a] != START_NODE
}

/// No fixture before `f` produces the type that `f` produces.
pub open spec fn first_producer<F>(fixtures: Seq<FixtureConfig<F>>, f: int) -> bool {
    forall|g: int| 0 <= g < f ==> #[trigger] fixtures[g].output != fixtures[f].output
}

/// Takes `ids[j]` for a new node, unless the builder holds it already or it is the start node.
fn claim_id(b: &ScheduleBuilder, ids: &Vec<NodeId>, j: usize) -> (r: Result<NodeId, BuildError>)
    requires
        j < ids@.len(),
    ensures
        r matches Ok(id) ==> id == ids@[j as int] && id != START_NODE && !b.nodes().contains_key(id),
        r is Err ==> r == Err::<NodeId, BuildError>(BuildError::IdCollision(ids@[j as int]))
            && (ids@[j as int] == START_NODE || b.nodes().contains_key(ids@[j as int])),
{
    let id = ids[j];
    if id == START_NODE || b.contains(id) {
        Err(BuildError::IdCollision(id))
    } else {
        Ok(id)
    }
}

/// Where each node's id came from: test `x` has `ids[x]`, the node of the fixture at index `f`
/// has `ids[n + f]`, with `f` the first producer of its type; every node has a role, and
/// fixture nodes stand only for consumed types.
pub open spec fn provenance<F>(
    b: &ScheduleBuilder,
    tests: Seq<TestConfig<F>>,
    fixtures: Seq<FixtureConfig<F>>,
    ids: Seq<NodeId>,
    test_nodes: Seq<NodeId>,
    fixture_nodes: Map<TypeIdentity, NodeId>,
    roles: Map<NodeId, NodeRole>,
) -> bool {
    &&& ids.len() == tests.len() + fixtures.len()
    &&& test_nodes.len() <= tests.len()
    &&& test_nodes == ids.take(test_nodes.len() as int)
    &&& forall|id: NodeId| #[trigger] b.nodes().contains_key(id) ==> roles.contains_key(id)
    &&& forall|id: NodeId| #[trigger] roles.contains_key(id) ==> (roles[id] matches NodeRole::Fixture(f)
        ==> ids[tests.len() + f] == id && first_producer(fixtures, f as int))
    &&& forall|t: TypeIdentity| #[trigger] fixture_nodes.contains_key(t) ==> consumed(tests, t)
}

/// The dependency/exclusion graph of a test run, with what each node runs.
pub struct Runner<F> {
    schedule: Schedule,
    tests: Vec<TestConfig<F>>,
    fixtures: Vec<FixtureConfig<F>>,
    /// The node of each test, by test index.
    test_nodes: Vec<NodeId>,
    /// The single node that produces each consumed type.
    fixture_nodes: HashMap<TypeIdentity, NodeId>,
    roles: HashMap<NodeId, NodeRole>,
}

/// The state of a graph under construction: ids, roles and the memo of fixture nodes agree.
pub open spec fn wiring_ok<F>(
    b: &ScheduleBuilder,
    fixtures: Seq<FixtureConfig<F>>,
    test_nodes: Seq<NodeId>,
    fixture_nodes: Map<TypeIdentity, NodeId>,
    roles: Map<NodeId, NodeRole>,
) -> bool {
    &&& b.wf()
    &&& forall|x: int| 0 <= x < test_nodes.len() ==> b.nodes().contains_key(#[trigger] test_nodes[x])
    &&& forall|x: int| 0 <= x < test_nodes.len() ==> #[trigger] test_nodes[x] != START_NODE
    &&& forall|x: int, y: int|
        0 <= x < y < test_nodes.len() ==> #[trigger] test_nodes[x] != #[trigger] test_nodes[y]
    &&& forall|x: int|
        0 <= x < test_nodes.len() ==> roles.contains_key(#[trigger] test_nodes[x]) && roles[test_nodes[x]]
            == NodeRole::Test(x as usize)
    &&& forall|id: NodeId| #[trigger] roles.contains_key(id) ==> b.nodes().contains_key(id)
    &&& forall|id: NodeId| #[trigger]
        roles.contains_key(id) ==> (roles[id] matches NodeRole::Test(x) ==> x < test_nodes.len()
            && test_nodes[x as int] == id)
    &&& forall|t: TypeIdentity| #[trigger]
        fixture_nodes.contains_key(t) ==> roles.contains_key(fixture_nodes[t]) && (
        roles[fixture_nodes[t]] matches NodeRole::Fixture(f) && f < fixtures.len()
            && fixtures[f as int].output == t)
    &&& forall|id: NodeId| #[trigger]
        roles.contains_key(id) ==> (roles[id] matches NodeRole::Fixture(f) ==> f < fixtures.len()
            && fixture_nodes.contains_key(fixtures[f as int].output) && fixture_nodes[fixtures[f as int].output] == id)
}

/// Input `k` of test `x` has its fixture node, and a borrowing input waits on it.
pub open spec fn wired<F>(
    nodes: Map<NodeId, crate::schedule::Node>,
    tests: Seq<TestConfig<F>>,
    test_nodes: Seq<NodeId>,
    fixture_nodes: Map<TypeIdentity, NodeId>,
    x: int,
    k: int,
) -> bool {
    let input = tests[x].inputs@[k];
    &&& fixture_nodes.contains_key(*input.inner_spec())
    &&& input.borrows() ==> dependents_of(nodes, fixture_nodes[*input.inner_spec()]).contains(
        test_nodes[x],
    )
}

/// Dependents are only ever added.
pub open spec fn dependents_grow(
    before: Map<NodeId, crate::schedule::Node>,
    after: Map<NodeId, crate::schedule::Node>,
) -> bool {
    forall|n: NodeId, m: NodeId| #[trigger]
        dependents_of(before, n).contains(m) ==> #[trigger] dependents_of(after, n).contains(m)
}

impl<F> Runner<F> {
    pub closed spec fn schedule(&self) -> Schedule {
        self.schedule
    }

    pub closed spec fn tests(&self) -> Seq<TestConfig<F>> {
        self.tests@
    }

    pub closed spec fn fixtures(&self) -> Seq<FixtureConfig<F>> {
        self.fixtures@
    }

    /// The node of each test, by test index.
    pub closed spec fn test_nodes(&self) -> Seq<NodeId> {
        self.test_nodes@
    }

    /// The node that produces each consumed type.
    pub closed spec fn fixture_nodes(&self) -> Map<TypeIdentity, NodeId> {
        self.fixture_nodes@
    }

    /// What each node (but the start node) runs.
    pub closed spec fn roles(&self) -> Map<NodeId, NodeRole> {
        self.roles@
    }

    pub closed spec fn wf(&self) -> bool {
        &&& self.schedule.wf()
        &&& self.schedule.settled()
        &&& self.test_nodes@.len() == self.tests@.len()
        &&& forall|id: NodeId| #[trigger] self.roles@.contains_key(id) ==> id != START_NODE
        &&& forall|id: NodeId| #[trigger]
            self.roles@.contains_key(id) ==> match self.roles@[id] {
                NodeRole::Test(i) => i < self.tests@.len(),
                NodeRole::Fixture(f) => f < self.fixtures@.len(),
            }
        &&& forall|x: int, y: int|
            0 <= x < self.tests@.len() && 0 <= y < self.tests@.len() && x != y && conflicts(
                &self.tests@[x],
                &self.tests@[y],
            ) && self.schedule.nodes().contains_key(self.test_nodes@[x])
                ==> #[trigger] self.schedule.excludes(self.test_nodes@[x], self.test_nodes@[y])
    }
}


/// Adds the node of test `i` and, for each of its inputs, the memoized node of the fixture
/// that produces it; a borrowing input makes the test wait on that fixture.
fn wire_test<F>(
    b: &mut ScheduleBuilder,
    tests: &Vec<TestConfig<F>>,
    fixtures: &Vec<FixtureConfig<F>>,
    ids: &Vec<NodeId>,
    test_nodes: &mut Vec<NodeId>,
    fixture_nodes: &mut HashMap<TypeIdentity, NodeId>,
    roles: &mut HashMap<NodeId, NodeRole>,
) -> (r: Result<(), BuildError>)
    requires
        wiring_ok(old(b), fixtures@, old(test_nodes)@, old(fixture_nodes)@, old(roles)@),
        provenance(old(b), tests@, fixtures@, ids@, old(test_nodes)@, old(fixture_nodes)@, old(roles)@),
        old(test_nodes)@.len() < tests@.len(),
        all_produced(tests@, fixtures@),
        no_exclusions(old(b).nodes()),
        deps_exact(old(b).nodes(), tests@, old(test_nodes)@, old(fixture_nodes)@),
        counts_exact(old(b).nodes(), tests@, old(test_nodes)@, old(test_nodes)@.len() as int),
    ensures
        r is Ok ==> no_exclusions(final(b).nodes()),
        r is Ok ==> deps_exact(final(b).nodes(), tests@, final(test_nodes)@, final(fixture_nodes)@),
        r is Ok ==> counts_exact(final(b).nodes(), tests@, final(test_nodes)@, final(test_nodes)@.len() as int),
        r matches Err(e) ==> e matches BuildError::IdCollision(x) && ((x == START_NODE && ids@.contains(x))
            || repeated(ids@, x)),
        r is Ok ==> provenance(final(b), tests@, fixtures@, ids@, final(test_nodes)@, final(fixture_nodes)@, final(roles)@),
        r is Ok ==> wiring_ok(final(b), fixtures@, final(test_nodes)@, final(fixture_nodes)@, final(roles)@)
            && final(test_nodes)@.len() == old(test_nodes)@.len() + 1
            && final(test_nodes)@.take(old(test_nodes)@.len() as int) == old(test_nodes)@
            && dependents_grow(old(b).nodes(), final(b).nodes())
            && (forall|t: TypeIdentity| #[trigger] old(fixture_nodes)@.contains_key(t)
                ==> final(fixture_nodes)@.contains_key(t) && final(fixture_nodes)@[t] == old(fixture_nodes)@[t])
            && (forall|k: int| 0 <= k < tests@[old(test_nodes)@.len() as int].inputs@.len()
                ==> #[trigger] wired(final(b).nodes(), tests@, final(test_nodes)@, final(fixture_nodes)@,
                    old(test_nodes)@.len() as int, k)),
{
    let i = test_nodes.len();
    let ghost r0 = roles@;
    let test_id = match claim_id(b, ids, i) {
        Ok(id) => id,
        Err(e) => {
            proof {
                let x = ids@[i as int];
                assert(ids@.contains(x));
                if x != START_NODE {
                    assert(r0.contains_key(x));
                    match r0[x] {
                        NodeRole::Test(j) => {
                            assert(old(test_nodes)@[j as int] == ids@[j as int]);
                            assert(ids@[j as int] == x && ids@[i as int] == x);
                        },
                        NodeRole::Fixture(f) => {
                            assert(ids@[i as int] == x && ids@[tests@.len() + f] == x);
                        },
                    }
                }
            }
            return Err(e);
        },
    };
    let ghost b0 = b.nodes();
    b.register_node(test_id);
    roles.insert(test_id, NodeRole::Test(i));
    test_nodes.push(test_id);
    proof {
        let tn0 = old(test_nodes)@;
        assert forall|x: int| 0 <= x < test_nodes@.len() implies dependents_of(b.nodes(), #[trigger] test_nodes@[x]).len() == 0 by {
            if x < i {
                assert(test_nodes@[x] == tn0[x]);
                assert(b0.contains_key(tn0[x]));
            } else {
                assert(b.nodes()[test_id].dependents@.len() == 0);
            }
        }
        assert forall|t: TypeIdentity| #[trigger] fixture_nodes@.contains_key(t) implies count_of(b.nodes(), fixture_nodes@[t]) == 0 by {
            assert(r0.contains_key(fixture_nodes@[t]));
            assert(b0.contains_key(fixture_nodes@[t]));
        }
        assert forall|t: TypeIdentity, m: NodeId| fixture_nodes@.contains_key(t)
            && #[trigger] dependents_of(b.nodes(), fixture_nodes@[t]).contains(m) implies borrower(tests@, test_nodes@, m, t) by {
            assert(r0.contains_key(fixture_nodes@[t]));
            assert(b0.contains_key(fixture_nodes@[t]));
            assert(dependents_of(b0, fixture_nodes@[t]).contains(m));
            assert(borrower(tests@, tn0, m, t));
            let (x, k) = choose|x: int, k: int| 0 <= x < tn0.len() && #[trigger] tn0[x] == m && 0 <= k < tests@[x].inputs@.len()
                && (#[trigger] tests@[x].inputs@[k]).borrows() && *tests@[x].inputs@[k].inner_spec() == t;
            assert(test_nodes@[x] == m);
        }
        assert forall|k: NodeId| #[trigger] excluded_by(b.nodes(), k) == Set::<NodeId>::empty() by {
            assert(excluded_by(b0, k) == Set::<NodeId>::empty());
            if k != test_id && b0.contains_key(k) {
                assert(b.nodes()[k] == b0[k]);
            }
        }
        assert(test_nodes@.take(i as int) =~= old(test_nodes)@);
        assert(test_nodes@ =~= ids@.take(i + 1));
        assert forall|id: NodeId| #[trigger] roles@.contains_key(id) implies (roles@[id] matches NodeRole::Fixture(f)
            ==> ids@[tests@.len() + f] == id && first_producer(fixtures@, f as int)) by {
            if id != test_id {
                assert(r0.contains_key(id));
            }
        }
        assert forall|x: int| 0 <= x < test_nodes@.len() implies b.nodes().contains_key(#[trigger] test_nodes@[x]) by {
            if x < i {
                assert(old(test_nodes)@[x] == test_nodes@[x]);
            }
        }
        assert forall|x: int| 0 <= x < test_nodes@.len() implies #[trigger] test_nodes@[x] != START_NODE by {
            if x < i {
                assert(old(test_nodes)@[x] == test_nodes@[x]);
            }
        }
        assert forall|x: int, y: int| 0 <= x < y < test_nodes@.len() implies #[trigger] test_nodes@[x] != #[trigger] test_nodes@[y] by {
            assert(old(test_nodes)@[x] == test_nodes@[x]);
            if y < i {
                assert(old(test_nodes)@[y] == test_nodes@[y]);
            } else {
                assert(b0.contains_key(old(test_nodes)@[x]));
            }
        }
        assert forall|x: int| 0 <= x < test_nodes@.len() implies roles@.contains_key(#[trigger] test_nodes@[x]) && roles@[test_nodes@[x]]
            == NodeRole::Test(x as usize) by {
            if x < i {
                assert(old(test_nodes)@[x] == test_nodes@[x]);
                assert(b0.contains_key(test_nodes@[x]));
            }
        }
        assert forall|t: TypeIdentity| #[trigger] fixture_nodes@.contains_key(t) implies roles@.contains_key(fixture_nodes@[t]) && (
            roles@[fixture_nodes@[t]] matches NodeRole::Fixture(f) && f < fixtures@.len()
                && fixtures@[f as int].output == t) by {
            assert(old(roles)@.contains_key(fixture_nodes@[t]));
            assert(b0.contains_key(fixture_nodes@[t]));
        }
        assert forall|n: NodeId, m: NodeId| #[trigger]
            dependents_of(b0, n).contains(m) implies #[trigger] dependents_of(b.nodes(), n).contains(m) by {
        }
    }
    let ghost b1 = b.nodes();
    let ghost fixture_nodes1 = fixture_nodes@;
    let mut k: usize = 0;
    while k < tests[i].inputs.len()
        invariant
            wiring_ok(b, fixtures@, test_nodes@, fixture_nodes@, roles@),
            provenance(b, tests@, fixtures@, ids@, test_nodes@, fixture_nodes@, roles@),
            no_exclusions(b.nodes()),
            deps_exact(b.nodes(), tests@, test_nodes@, fixture_nodes@),
            i == old(test_nodes)@.len(),
            i < tests@.len(),
            test_nodes@.len() == i + 1,
            test_nodes@[i as int] == test_id,
            test_nodes@.take(i as int) == old(test_nodes)@,
            all_produced(tests@, fixtures@),
            0 <= k <= tests@[i as int].inputs@.len(),
            count_of(b.nodes(), test_id) == borrow_count(tests@[i as int].inputs@.take(k as int)),
            count_of(b.nodes(), test_id) <= k,
            counts_exact(b.nodes(), tests@, test_nodes@, i as int),
            dependents_grow(old(b).nodes(), b.nodes()),
            forall|t: TypeIdentity| #[trigger] old(fixture_nodes)@.contains_key(t)
                ==> fixture_nodes@.contains_key(t) && fixture_nodes@[t] == old(fixture_nodes)@[t],
            forall|y: int| 0 <= y < k ==> #[trigger] wired(b.nodes(), tests@, test_nodes@, fixture_nodes@, i as int, y),
        decreases tests@[i as int].inputs@.len() - k,
    {
        let input = tests[i].inputs[k];
        proof {
            let ins = tests@[i as int].inputs@;
            assert(ins.take(k + 1).drop_last() =~= ins.take(k as int));
            assert(ins.take(k + 1).last() == ins[k as int]);
        }
        let t = input.id();
        let ghost bs = b.nodes();
        let ghost fs = fixture_nodes@;
        let node = match fixture_nodes.get(&t) {
            Some(node) => *node,
            None => {
                proof {
                    assert(produced(fixtures@, *tests@[i as int].inputs@[k as int].inner_spec()));
                }
                let f = match producer_of(fixtures, t) {
                    Some(f) => f,
                    None => return Err(BuildError::MissingProducer(t)),
                };
                let ghost rk = roles@;
                let total = ids.len();
                assert(tests@.len() + f < total);
                let id = match claim_id(b, ids, tests.len() + f) {
                    Ok(id) => id,
                    Err(e) => {
                        proof {
                            let j = tests@.len() + f;
                            let x = ids@[j];
                            assert(ids@.contains(x));
                            if x != START_NODE {
                                assert(rk.contains_key(x));
                                match rk[x] {
                                    NodeRole::Test(y) => {
                                        assert(test_nodes@[y as int] == ids@[y as int]);
                                        assert(ids@[y as int] == x && ids@[j] == x);
                                    },
                                    NodeRole::Fixture(g) => {
                                        assert(fs.contains_key(fixtures@[g as int].output));
                                        assert(g != f);
                                        if g < f {
                                            assert(ids@[tests@.len() + g] == x && ids@[j] == x);
                                        } else {
                                            assert(ids@[j] == x && ids@[tests@.len() + g] == x);
                                        }
                                    },
                                }
                            }
                        }
                        return Err(e);
                    },
                };
                b.register_node(id);
                proof {
                    assert forall|x: int| 0 <= x < test_nodes@.len() implies dependents_of(b.nodes(), #[trigger] test_nodes@[x]).len() == 0 by {
                        assert(bs.contains_key(test_nodes@[x]));
                    }
                    assert forall|k: NodeId| #[trigger] excluded_by(b.nodes(), k) == Set::<NodeId>::empty() by {
                        assert(excluded_by(bs, k) == Set::<NodeId>::empty());
                        if k != id && bs.contains_key(k) {
                            assert(b.nodes()[k] == bs[k]);
                        }
                    }
                }
                roles.insert(id, NodeRole::Fixture(f));
                fixture_nodes.insert(t, id);
                proof {
                    let rs = roles@;
                    assert forall|u: TypeIdentity| #[trigger] fixture_nodes@.contains_key(u) implies count_of(b.nodes(), fixture_nodes@[u]) == 0 by {
                        if u != t {
                            assert(rk.contains_key(fixture_nodes@[u]));
                            assert(bs.contains_key(fixture_nodes@[u]));
                        }
                    }
                    assert forall|u: TypeIdentity, m: NodeId| fixture_nodes@.contains_key(u)
                        && #[trigger] dependents_of(b.nodes(), fixture_nodes@[u]).contains(m) implies borrower(tests@, test_nodes@, m, u) by {
                        if u != t {
                            assert(rk.contains_key(fixture_nodes@[u]));
                            assert(bs.contains_key(fixture_nodes@[u]));
                            assert(dependents_of(bs, fs[u]).contains(m));
                        }
                    }
                    assert(*tests@[i as int].inputs@[k as int].inner_spec() == t);
                    assert(consumed(tests@, t));
                    assert forall|u: TypeIdentity| #[trigger] fixture_nodes@.contains_key(u) implies consumed(tests@, u) by {
                        if u != t {
                            assert(fs.contains_key(u));
                        }
                    }
                    assert forall|n: NodeId| #[trigger] rs.contains_key(n) implies (rs[n] matches NodeRole::Fixture(g)
                        ==> ids@[tests@.len() + g] == n && first_producer(fixtures@, g as int)) by {
                        if n != id {
                            assert(rk.contains_key(n));
                        }
                    }
                    assert forall|x: int| 0 <= x < test_nodes@.len() implies rs.contains_key(#[trigger] test_nodes@[x]) && rs[test_nodes@[x]]
                        == NodeRole::Test(x as usize) by {
                        assert(bs.contains_key(test_nodes@[x]));
                    }
                    assert forall|u: TypeIdentity| #[trigger] fixture_nodes@.contains_key(u) implies rs.contains_key(fixture_nodes@[u]) && (
                        rs[fixture_nodes@[u]] matches NodeRole::Fixture(g) && g < fixtures@.len()
                            && fixtures@[g as int].output == u) by {
                        if u != t {
                            assert(bs.contains_key(fixture_nodes@[u]));
                        }
                    }
                    assert forall|n: NodeId| #[trigger] rs.contains_key(n) implies (rs[n] matches NodeRole::Fixture(g) ==> g < fixtures@.len()
                        && fixture_nodes@.contains_key(fixtures@[g as int].output) && fixture_nodes@[fixtures@[g as int].output] == n) by {
                        if n != id {
                            assert(bs.contains_key(n));
                            match rs[n] {
                                NodeRole::Fixture(g) => {
                                    assert(fs.contains_key(fixtures@[g as int].output));
                                    assert(fixtures@[g as int].output != t);
                                },
                                _ => {},
                            }
                        }
                    }
                    assert forall|n: NodeId, m: NodeId| #[trigger]
                        dependents_of(bs, n).contains(m) implies #[trigger] dependents_of(b.nodes(), n).contains(m) by {
                    }
                }
                id
            },
        };
        let ghost bm = b.nodes();
        proof {
            b.lemma_no_start();
        }
        if !matches!(input, InputRef::Owned(_)) {
            b.add_dependency(node, test_id);
            proof {
                assert forall|n: NodeId, m: NodeId| #[trigger]
                    dependents_of(bm, n).contains(m) implies #[trigger] dependents_of(b.nodes(), n).contains(m) by {
                    if n == node {
                        crate::schedule::lemma_push_contains(dependents_of(bm, n), test_id, m);
                    }
                }
                crate::schedule::lemma_push_contains(dependents_of(bm, node), test_id, test_id);
                let fn_now = fixture_nodes@;
                assert(roles@[node] matches NodeRole::Fixture(_));
                assert forall|x: int| 0 <= x < test_nodes@.len() implies dependents_of(b.nodes(), #[trigger] test_nodes@[x]).len() == 0 by {
                    assert(roles@[test_nodes@[x]] == NodeRole::Test(x as usize));
                    assert(test_nodes@[x] != node);
                }
                assert forall|u: TypeIdentity| #[trigger] fixture_nodes@.contains_key(u) implies count_of(b.nodes(), fixture_nodes@[u]) == 0 by {
                    assert(roles@[fixture_nodes@[u]] matches NodeRole::Fixture(_));
                    assert(roles@[test_id] == NodeRole::Test(i));
                    assert(fixture_nodes@[u] != test_id);
                }
                assert forall|u: TypeIdentity, m: NodeId| fixture_nodes@.contains_key(u)
                    && #[trigger] dependents_of(b.nodes(), fixture_nodes@[u]).contains(m) implies borrower(tests@, test_nodes@, m, u) by {
                    if fixture_nodes@[u] == node {
                        crate::schedule::lemma_push_contains(dependents_of(bm, node), test_id, m);
                        if m == test_id {
                            assert(fixtures@[0].output == fixtures@[0].output);
                            match roles@[node] {
                                NodeRole::Fixture(g) => {
                                    assert(fixtures@[g as int].output == u);
                                    assert(fixtures@[g as int].output == t);
                                },
                                _ => {},
                            }
                            assert(test_nodes@[i as int] == m);
                            assert(tests@[i as int].inputs@[k as int].borrows());
                        }
                    }
                }
            }
        }
        proof {
            assert forall|y: int| 0 <= y <= k implies #[trigger] wired(b.nodes(), tests@, test_nodes@, fixture_nodes@, i as int, y) by {
                if y < k {
                    assert(wired(bs, tests@, test_nodes@, fs, i as int, y));
                }
            }
            assert forall|n: NodeId, m: NodeId| #[trigger]
                dependents_of(old(b).nodes(), n).contains(m) implies #[trigger] dependents_of(b.nodes(), n).contains(m) by {
                assert(dependents_of(bs, n).contains(m));
                assert(dependents_of(bm, n).contains(m));
            }
        }
        k = k + 1;
    }
    proof {
        assert(tests@[i as int].inputs@.take(k as int) =~= tests@[i as int].inputs@);
        assert(test_nodes@[i as int] == test_id);
    }
    Ok(())
}


/// Both tests hold each other back.
pub open spec fn mutually_excluded(nodes: Map<NodeId, crate::schedule::Node>, a: NodeId, b: NodeId) -> bool {
    excluded_by(nodes, a).contains(b) && excluded_by(nodes, b).contains(a)
}

/// No node excludes any other.
pub open spec fn no_exclusions(nodes: Map<NodeId, crate::schedule::Node>) -> bool {
    forall|k: NodeId| #[trigger] excluded_by(nodes, k) == Set::<NodeId>::empty()
}

/// `a` and `c` are the nodes of two different tests that conflict.
pub open spec fn conflicting_pair<F>(tests: Seq<TestConfig<F>>, test_nodes: Seq<NodeId>, a: NodeId, c: NodeId) -> bool {
    exists|x: int, y: int|
        0 <= x < tests.len() && 0 <= y < tests.len() && x != y && #[trigger] test_nodes[x] == a
            && #[trigger] test_nodes[y] == c && (conflicts(&tests[x], &tests[y]) || conflicts(&tests[y], &tests[x]))
}

/// How many of the inputs borrow (shared or exclusive) their resource.
pub open spec fn borrow_count(inputs: Seq<InputRef<TypeIdentity>>) -> nat
    decreases inputs.len(),
{
    if inputs.len() == 0 {
        0
    } else {
        borrow_count(inputs.drop_last()) + if inputs.last().borrows() {
            1nat
        } else {
            0nat
        }
    }
}

/// The first `upto` tests wait on exactly as many fixtures as they have borrowing inputs.
pub open spec fn counts_exact<F>(
    nodes: Map<NodeId, crate::schedule::Node>,
    tests: Seq<TestConfig<F>>,
    test_nodes: Seq<NodeId>,
    upto: int,
) -> bool {
    forall|x: int| 0 <= x < upto && x < test_nodes.len() ==> count_of(nodes, #[trigger] test_nodes[x])
        == borrow_count(tests[x].inputs@)
}

/// Test `m` is the node of a test that borrows type `t`.
pub open spec fn borrower<F>(tests: Seq<TestConfig<F>>, test_nodes: Seq<NodeId>, m: NodeId, t: TypeIdentity) -> bool {
    exists|x: int, k: int|
        0 <= x < test_nodes.len() && #[trigger] test_nodes[x] == m && 0 <= k < tests[x].inputs@.len()
            && (#[trigger] tests[x].inputs@[k]).borrows() && *tests[x].inputs@[k].inner_spec() == t
}

/// The only dependency edges run from a fixture node to the tests that borrow its type; no
/// test has dependents and no fixture node waits on anything.
pub open spec fn deps_exact<F>(
    nodes: Map<NodeId, crate::schedule::Node>,
    tests: Seq<TestConfig<F>>,
    test_nodes: Seq<NodeId>,
    fixture_nodes: Map<TypeIdentity, NodeId>,
) -> bool {
    &&& forall|x: int| 0 <= x < test_nodes.len() ==> dependents_of(nodes, #[trigger] test_nodes[x]).len() == 0
    &&& forall|t: TypeIdentity| #[trigger] fixture_nodes.contains_key(t) ==> count_of(nodes, fixture_nodes[t]) == 0
    &&& forall|t: TypeIdentity, m: NodeId| fixture_nodes.contains_key(t)
        && #[trigger] dependents_of(nodes, fixture_nodes[t]).contains(m) ==> borrower(tests, test_nodes, m, t)
}

/// Adds an exclusion between every two tests that conflict.
fn exclude_conflicts<F>(b: &mut ScheduleBuilder, tests: &Vec<TestConfig<F>>, test_nodes: &Vec<NodeId>)
    requires
        old(b).wf(),
        test_nodes@.len() == tests@.len(),
        forall|x: int| 0 <= x < test_nodes@.len() ==> old(b).nodes().contains_key(#[trigger] test_nodes@[x]),
        forall|x: int| 0 <= x < test_nodes@.len() ==> #[trigger] test_nodes@[x] != START_NODE,
        forall|x: int, y: int|
            0 <= x < y < test_nodes@.len() ==> #[trigger] test_nodes@[x] != #[trigger] test_nodes@[y],
        no_exclusions(old(b).nodes()),
    ensures
        final(b).wf(),
        final(b).nodes().dom() == old(b).nodes().dom(),
        forall|a: NodeId, c: NodeId| #[trigger] excluded_by(final(b).nodes(), a).contains(c)
            ==> conflicting_pair(tests@, test_nodes@, a, c),
        forall|n: NodeId| #![trigger count_of(final(b).nodes(), n)]
            count_of(final(b).nodes(), n) == count_of(old(b).nodes(), n),
        forall|n: NodeId| #![trigger dependents_of(final(b).nodes(), n)]
            dependents_of(final(b).nodes(), n) == dependents_of(old(b).nodes(), n),
        forall|x: int, y: int|
            0 <= x < y < tests@.len() && (conflicts(&tests@[x], &tests@[y]) || conflicts(&tests@[y], &tests@[x]))
            ==> #[trigger] mutually_excluded(final(b).nodes(), test_nodes@[x], test_nodes@[y]),
{
    let n = tests.len();
    let mut x: usize = 0;
    while x < n
        invariant
            b.wf(),
            n == tests@.len(),
            test_nodes@.len() == n,
            0 <= x <= n,
            b.nodes().dom() == old(b).nodes().dom(),
            forall|p: int| 0 <= p < test_nodes@.len() ==> #[trigger] test_nodes@[p] != START_NODE,
            forall|p: int| 0 <= p < test_nodes@.len() ==> old(b).nodes().contains_key(#[trigger] test_nodes@[p]),
            forall|p: int, q: int|
                0 <= p < q < test_nodes@.len() ==> #[trigger] test_nodes@[p] != #[trigger] test_nodes@[q],
            forall|m: NodeId| #![trigger dependents_of(b.nodes(), m)]
                dependents_of(b.nodes(), m) == dependents_of(old(b).nodes(), m),
            forall|m: NodeId| #![trigger count_of(b.nodes(), m)]
                count_of(b.nodes(), m) == count_of(old(b).nodes(), m),
            forall|a: NodeId, c: NodeId| #[trigger] excluded_by(b.nodes(), a).contains(c)
                ==> conflicting_pair(tests@, test_nodes@, a, c),
            forall|p: int, q: int|
                0 <= p < q < n && p < x && (conflicts(&tests@[p], &tests@[q]) || conflicts(&tests@[q], &tests@[p]))
                ==> #[trigger] mutually_excluded(b.nodes(), test_nodes@[p], test_nodes@[q]),
        decreases n - x,
    {
        let mut y: usize = x + 1;
        while y < n
            invariant
                b.wf(),
                n == tests@.len(),
                test_nodes@.len() == n,
                0 <= x < n,
                x + 1 <= y <= n,
                b.nodes().dom() == old(b).nodes().dom(),
                forall|p: int| 0 <= p < test_nodes@.len() ==> #[trigger] test_nodes@[p] != START_NODE,
                forall|p: int| 0 <= p < test_nodes@.len() ==> old(b).nodes().contains_key(#[trigger] test_nodes@[p]),
                forall|p: int, q: int|
                    0 <= p < q < test_nodes@.len() ==> #[trigger] test_nodes@[p] != #[trigger] test_nodes@[q],
                forall|m: NodeId| #![trigger dependents_of(b.nodes(), m)]
                    dependents_of(b.nodes(), m) == dependents_of(old(b).nodes(), m),
                forall|m: NodeId| #![trigger count_of(b.nodes(), m)]
                    count_of(b.nodes(), m) == count_of(old(b).nodes(), m),
                forall|a: NodeId, c: NodeId| #[trigger] excluded_by(b.nodes(), a).contains(c)
                    ==> conflicting_pair(tests@, test_nodes@, a, c),
                forall|p: int, q: int|
                    0 <= p < q < n && (p < x || (p == x && q < y)) && (conflicts(&tests@[p], &tests@[q]) || conflicts(&tests@[q], &tests@[p]))
                    ==> #[trigger] mutually_excluded(b.nodes(), test_nodes@[p], test_nodes@[q]),
            decreases n - y,
        {
            if tests_conflict(&tests[x], &tests[y]) || tests_conflict(&tests[y], &tests[x]) {
                let ghost before = b.nodes();
                let tx = test_nodes[x];
                let ty = test_nodes[y];
                assert(tx != ty);
                b.add_exclusion(tx, ty);
                proof {
                    assert(b.nodes().dom() =~= old(b).nodes().dom());
                    assert forall|a: NodeId, c: NodeId| #[trigger] excluded_by(b.nodes(), a).contains(c)
                        implies conflicting_pair(tests@, test_nodes@, a, c) by {
                        if a == tx && c == ty {
                            assert(test_nodes@[x as int] == a && test_nodes@[y as int] == c);
                        } else if a == ty && c == tx {
                            assert(test_nodes@[y as int] == a && test_nodes@[x as int] == c);
                        } else {
                            assert(excluded_by(before, a).contains(c));
                        }
                    }
                    assert forall|p: int, q: int|
                        0 <= p < q < n && (p < x || (p == x && q <= y)) && (conflicts(&tests@[p], &tests@[q]) || conflicts(&tests@[q], &tests@[p]))
                        implies #[trigger] mutually_excluded(b.nodes(), test_nodes@[p], test_nodes@[q]) by {
                        if !(p == x && q == y) {
                            assert(mutually_excluded(before, test_nodes@[p], test_nodes@[q]));
                            let a = test_nodes@[p];
                            let c = test_nodes@[q];
                            assert(excluded_by(before, a).subset_of(excluded_by(b.nodes(), a)));
                            assert(excluded_by(before, c).subset_of(excluded_by(b.nodes(), c)));
                        }
                    }
                }
            }
            y = y + 1;
        }
        x = x + 1;
    }
}


/// The graph of a run, as built from its tests and fixtures: a node for each test, one node
/// for each consumed type, the dependency of each borrowing test on its fixture, and an
/// exclusion between every two conflicting tests.
pub open spec fn built<F>(run: &Runner<F>, tests: Seq<TestConfig<F>>, fixtures: Seq<FixtureConfig<F>>) -> bool {
                &&& run.wf()
                &&& run.tests() == tests
                &&& run.fixtures() == fixtures
                &&& run.schedule().active() == set![START_NODE]
                &&& forall|x: int, y: int|
                    0 <= x < y < run.test_nodes().len() ==> #[trigger] run.test_nodes()[x] != #[trigger] run.test_nodes()[y]
                &&& forall|x: int| 0 <= x < run.test_nodes().len() ==> run.roles().contains_key(#[trigger] run.test_nodes()[x])
                    && run.roles()[run.test_nodes()[x]] == NodeRole::Test(x as usize)
                    && run.schedule().nodes().contains_key(run.test_nodes()[x])
                &&& forall|a: NodeId, c: NodeId|
                    run.roles().contains_key(a) && run.roles().contains_key(c) && (#[trigger] run.roles()[a] matches NodeRole::Fixture(f)
                        && #[trigger] run.roles()[c] matches NodeRole::Fixture(g)
                        && fixtures[f as int].output == fixtures[g as int].output) ==> a == c
                &&& forall|x: int, k: int| 0 <= x < tests.len() && 0 <= k < tests[x].inputs@.len()
                    && (#[trigger] tests[x].inputs@[k]).borrows() ==> run.fixture_nodes().contains_key(*tests[x].inputs@[k].inner_spec())
                    && run.schedule().nodes()[run.fixture_nodes()[*tests[x].inputs@[k].inner_spec()]].dependents@.contains(run.test_nodes()[x])
                &&& forall|x: int, y: int|
                    0 <= x < tests.len() && 0 <= y < tests.len() && x != y && conflicts(&tests[x], &tests[y])
                    ==> #[trigger] run.schedule().excludes(run.test_nodes()[x], run.test_nodes()[y])
                &&& forall|a: NodeId, c: NodeId| #[trigger] run.schedule().excludes(a, c)
                    ==> conflicting_pair(tests, run.test_nodes(), a, c)
                &&& forall|x: int| 0 <= x < run.test_nodes().len()
                    ==> run.schedule().nodes()[#[trigger] run.test_nodes()[x]].dependents@.len() == 0
                &&& forall|t: TypeIdentity| #[trigger] run.fixture_nodes().contains_key(t)
                    ==> run.schedule().nodes().contains_key(run.fixture_nodes()[t])
                    && run.schedule().nodes()[run.fixture_nodes()[t]].dependency_count == 1
                    && run.schedule().nodes()[START_NODE].dependents@.contains(run.fixture_nodes()[t])
                &&& forall|t: TypeIdentity, m: NodeId| run.fixture_nodes().contains_key(t)
                    && #[trigger] run.schedule().nodes()[run.fixture_nodes()[t]].dependents@.contains(m)
                    ==> borrower(tests, run.test_nodes(), m, t)
                &&& forall|x: int| 0 <= x < run.test_nodes().len()
                    ==> run.schedule().nodes()[#[trigger] run.test_nodes()[x]].dependency_count == if borrow_count(
                        tests[x].inputs@) == 0 {
                        1
                    } else {
                        borrow_count(tests[x].inputs@)
                    }
                &&& forall|x: int| 0 <= x < run.test_nodes().len()
                    ==> (run.schedule().nodes()[START_NODE].dependents@.contains(#[trigger] run.test_nodes()[x])
                    <==> borrow_count(tests[x].inputs@) == 0)
                &&& run.test_nodes().len() == tests.len()
                &&& forall|x: int| 0 <= x < run.test_nodes().len() ==> #[trigger] run.test_nodes()[x] != START_NODE
                &&& forall|t: TypeIdentity| #[trigger] run.fixture_nodes().contains_key(t) ==> consumed(tests, t)
                    && run.roles().contains_key(run.fixture_nodes()[t])
                    && (run.roles()[run.fixture_nodes()[t]] matches NodeRole::Fixture(f) && fixtures[f as int].output == t)
}

impl<F> Runner<F> {
    /// Builds the graph of a run with fresh random node ids.
    pub fn new(tests: Vec<TestConfig<F>>, fixtures: Vec<FixtureConfig<F>>) -> (r: Result<Runner<F>, BuildError>)
        ensures
            !all_produced(tests@, fixtures@) <==> r matches Err(BuildError::MissingProducer(_)),
            r matches Err(BuildError::MissingProducer(t)) ==> consumed(tests@, t) && !produced(fixtures@, t),
            tests@.len() == 0 ==> r is Ok,
            r matches Ok(run) ==> built(&run, tests@, fixtures@),
    {
        let mut ids: Vec<NodeId> = Vec::new();
        let mut i: usize = 0;
        while i < tests.len()
            invariant
                ids@.len() == i,
                i <= tests@.len(),
            decreases tests@.len() - i,
        {
            ids.push(random_node_id());
            i = i + 1;
        }
        let mut f: usize = 0;
        while f < fixtures.len()
            invariant
                ids@.len() == tests@.len() + f,
                f <= fixtures@.len(),
            decreases fixtures@.len() - f,
        {
            ids.push(random_node_id());
            f = f + 1;
        }
        Runner::with_ids(tests, fixtures, ids)
    }

    /// Builds the graph of a run: a node for each test, one memoized node for each fixture
    /// that some test consumes, the dependency of each borrowing test on that fixture, and an
    /// exclusion between every two tests that conflict.
    ///
    /// Test `i` gets `ids[i]`; the node of the fixture at index `f` gets `ids[tests.len() + f]`.
    /// With distinct ids, none of them the start node, and a producer for every input, the
    /// build succeeds.
    pub fn with_ids(tests: Vec<TestConfig<F>>, fixtures: Vec<FixtureConfig<F>>, ids: Vec<NodeId>) -> (r: Result<Runner<F>, BuildError>)
        requires
            ids@.len() == tests@.len() + fixtures@.len(),
        ensures
            !all_produced(tests@, fixtures@) <==> r matches Err(BuildError::MissingProducer(_)),
            r matches Err(BuildError::MissingProducer(t)) ==> consumed(tests@, t) && !produced(fixtures@, t),
            r matches Err(BuildError::IdCollision(x)) ==> (x == START_NODE && ids@.contains(x)) || repeated(ids@, x),
            all_produced(tests@, fixtures@) && usable_ids(ids@) ==> r is Ok,
            tests@.len() == 0 ==> r is Ok,
            r matches Ok(run) ==> {
                &&& run.test_nodes() == ids@.take(tests@.len() as int)
                &&& forall|t: TypeIdentity| #[trigger] run.fixture_nodes().contains_key(t) ==> consumed(tests@, t)
                    && run.roles().contains_key(run.fixture_nodes()[t])
                    && (run.roles()[run.fixture_nodes()[t]] matches NodeRole::Fixture(f) && fixtures@[f as int].output == t
                        && run.fixture_nodes()[t] == ids@[tests@.len() + f])
                &&& built(&run, tests@, fixtures@)
            },
    {
        if let Some(t) = missing_producer(&tests, &fixtures) {
            return Err(BuildError::MissingProducer(t));
        }
        let mut b = ScheduleBuilder::new();
        let mut test_nodes: Vec<NodeId> = Vec::new();
        let mut fixture_nodes: HashMap<TypeIdentity, NodeId> = HashMap::new();
        let mut roles: HashMap<NodeId, NodeRole> = HashMap::new();
        proof {
            assert(fixture_nodes@ =~= Map::empty());
            assert(roles@ =~= Map::empty());
        }
        proof {
            assert(test_nodes@ =~= ids@.take(0));
            assert forall|k: NodeId| #[trigger] excluded_by(b.nodes(), k) == Set::<NodeId>::empty() by {}
        }
        let mut i: usize = 0;
        while i < tests.len()
            invariant
                wiring_ok(&b, fixtures@, test_nodes@, fixture_nodes@, roles@),
                provenance(&b, tests@, fixtures@, ids@, test_nodes@, fixture_nodes@, roles@),
                no_exclusions(b.nodes()),
                deps_exact(b.nodes(), tests@, test_nodes@, fixture_nodes@),
                counts_exact(b.nodes(), tests@, test_nodes@, test_nodes@.len() as int),
                ids@.len() == tests@.len() + fixtures@.len(),
                all_produced(tests@, fixtures@),
                test_nodes@.len() == i,
                0 <= i <= tests@.len(),
                forall|x: int, k: int| 0 <= x < i && 0 <= k < tests@[x].inputs@.len()
                    ==> #[trigger] wired(b.nodes(), tests@, test_nodes@, fixture_nodes@, x, k),
            decreases tests@.len() - i,
        {
            let ghost b0 = b.nodes();
            let ghost tn0 = test_nodes@;
            let ghost fn0 = fixture_nodes@;
            match wire_test(&mut b, &tests, &fixtures, &ids, &mut test_nodes, &mut fixture_nodes, &mut roles) {
                Ok(()) => {},
                Err(e) => {
                    proof {
                        if let BuildError::IdCollision(x) = e {
                            if repeated(ids@, x) {
                                let (a, c) = choose|a: int, c: int| 0 <= a < c < ids@.len() && #[trigger] ids@[a] == x && #[trigger] ids@[c] == x;
                                assert(ids@[a] == ids@[c]);
                            } else {
                                let j = ids@.index_of(x);
                                assert(ids@[j] == START_NODE);
                            }
                        }
                    }
                    return Err(e);
                },
            }
            proof {
                assert forall|x: int, k: int| 0 <= x < i + 1 && 0 <= k < tests@[x].inputs@.len()
                    implies #[trigger] wired(b.nodes(), tests@, test_nodes@, fixture_nodes@, x, k) by {
                    if x < i {
                        assert(wired(b0, tests@, tn0, fn0, x, k));
                        assert(test_nodes@[x] == test_nodes@.take(i as int)[x]);
                        let t = *tests@[x].inputs@[k].inner_spec();
                        assert(fn0.contains_key(t));
                        if tests@[x].inputs@[k].borrows() {
                            assert(dependents_of(b0, fn0[t]).contains(tn0[x]));
                        }
                    }
                }
            }
            i = i + 1;
        }
        let ghost before_exclusions = b.nodes();
        exclude_conflicts(&mut b, &tests, &test_nodes);
        let ghost wired_nodes = b.nodes();
        proof {
            b.lemma_no_start();
        }
        let schedule = b.build();
        let run = Runner { schedule, tests, fixtures, test_nodes, fixture_nodes, roles };
        proof {
            assert forall|id: NodeId| #[trigger] run.roles@.contains_key(id) implies id != START_NODE by {
                assert(wired_nodes.contains_key(id));
            }
            assert forall|a: NodeId, c: NodeId|
                run.roles().contains_key(a) && run.roles().contains_key(c) && (#[trigger] run.roles()[a] matches NodeRole::Fixture(f)
                    && #[trigger] run.roles()[c] matches NodeRole::Fixture(g)
                    && fixtures@[f as int].output == fixtures@[g as int].output) implies a == c by {
                match (run.roles@[a], run.roles@[c]) {
                    (NodeRole::Fixture(f), NodeRole::Fixture(g)) => {
                        assert(run.fixture_nodes@[fixtures@[f as int].output] == a);
                        assert(run.fixture_nodes@[fixtures@[g as int].output] == c);
                    },
                    _ => {},
                }
            }
            assert forall|x: int, k: int| 0 <= x < tests@.len() && 0 <= k < tests@[x].inputs@.len()
                && (#[trigger] tests@[x].inputs@[k]).borrows() implies run.fixture_nodes().contains_key(*tests@[x].inputs@[k].inner_spec())
                && run.schedule().nodes()[run.fixture_nodes()[*tests@[x].inputs@[k].inner_spec()]].dependents@.contains(run.test_nodes()[x]) by {
                assert(wired(before_exclusions, tests@, run.test_nodes@, run.fixture_nodes@, x, k));
                let t = *tests@[x].inputs@[k].inner_spec();
                assert(dependents_of(wired_nodes, run.fixture_nodes@[t]) == dependents_of(before_exclusions, run.fixture_nodes@[t]));
                assert(run.roles@.contains_key(run.fixture_nodes@[t]));
                assert(wired_nodes.contains_key(run.fixture_nodes@[t]));
            }
            assert forall|x: int, y: int|
                0 <= x < tests@.len() && 0 <= y < tests@.len() && x != y && conflicts(&tests@[x], &tests@[y])
                implies #[trigger] run.schedule().excludes(run.test_nodes()[x], run.test_nodes()[y]) by {
                let a = run.test_nodes@[x];
                let c = run.test_nodes@[y];
                if x < y {
                    assert(mutually_excluded(wired_nodes, a, c));
                } else {
                    assert(mutually_excluded(wired_nodes, c, a));
                }
                assert(wired_nodes.contains_key(a));
                assert(wired_nodes[a].mutually_excludes@.to_set().contains(c));
            }
            assert forall|x: int, y: int|
                0 <= x < run.tests@.len() && 0 <= y < run.tests@.len() && x != y && conflicts(
                    &run.tests@[x],
                    &run.tests@[y],
                ) && run.schedule.nodes().contains_key(run.test_nodes@[x])
                implies #[trigger] run.schedule.excludes(run.test_nodes@[x], run.test_nodes@[y]) by {
                assert(run.schedule().excludes(run.test_nodes()[x], run.test_nodes()[y]));
            }
            assert(run.wf());
            assert forall|x: int| 0 <= x < run.test_nodes().len()
                implies run.schedule().nodes()[#[trigger] run.test_nodes()[x]].dependents@.len() == 0 by {
                assert(wired_nodes.contains_key(run.test_nodes@[x]));
                assert(dependents_of(before_exclusions, run.test_nodes@[x]).len() == 0);
                assert(dependents_of(wired_nodes, run.test_nodes@[x]) == dependents_of(before_exclusions, run.test_nodes@[x]));
                assert(run.schedule().nodes()[run.test_nodes@[x]].dependents@ == wired_nodes[run.test_nodes@[x]].dependents@);
            }
            assert forall|x: int| 0 <= x < run.test_nodes().len()
                implies run.schedule().nodes()[#[trigger] run.test_nodes()[x]].dependency_count == if borrow_count(
                    tests@[x].inputs@) == 0 {
                    1
                } else {
                    borrow_count(tests@[x].inputs@)
                } && (run.schedule().nodes()[START_NODE].dependents@.contains(run.test_nodes()[x])
                    <==> borrow_count(tests@[x].inputs@) == 0) by {
                let id = run.test_nodes@[x];
                assert(wired_nodes.contains_key(id));
                assert(count_of(before_exclusions, id) == borrow_count(tests@[x].inputs@));
                assert(count_of(wired_nodes, id) == count_of(before_exclusions, id));
            }
            assert forall|t: TypeIdentity| #[trigger] run.fixture_nodes().contains_key(t)
                implies run.schedule().nodes().contains_key(run.fixture_nodes()[t])
                && run.schedule().nodes()[run.fixture_nodes()[t]].dependency_count == 1
                && run.schedule().nodes()[START_NODE].dependents@.contains(run.fixture_nodes()[t]) by {
                let id = run.fixture_nodes@[t];
                assert(run.roles@.contains_key(id));
                assert(wired_nodes.contains_key(id));
                assert(count_of(before_exclusions, id) == 0);
                assert(count_of(wired_nodes, id) == 0);
            }
            assert forall|t: TypeIdentity, m: NodeId| run.fixture_nodes().contains_key(t)
                && #[trigger] run.schedule().nodes()[run.fixture_nodes()[t]].dependents@.contains(m)
                implies borrower(tests@, run.test_nodes(), m, t) by {
                let id = run.fixture_nodes@[t];
                assert(run.roles@.contains_key(id));
                assert(wired_nodes.contains_key(id));
                assert(dependents_of(wired_nodes, id) == dependents_of(before_exclusions, id));
                assert(dependents_of(before_exclusions, id).contains(m));
            }
            assert forall|a: NodeId, c: NodeId| #[trigger] run.schedule().excludes(a, c)
                implies conflicting_pair(tests@, run.test_nodes(), a, c) by {
                if a != START_NODE {
                    assert(wired_nodes.contains_key(a));
                    assert(wired_nodes[a].mutually_excludes@.contains(c));
                    assert(excluded_by(wired_nodes, a).contains(c));
                }
            }
        }
        Ok(run)
    }
}


/// What the run loop should do next.
#[derive(Clone, Copy, Debug, PartialEq, Eq, Structural)]
pub enum Step {
    /// Run this node, which stands for this test or fixture, then complete it.
    Run(NodeId, NodeRole),
    /// Complete the start node; it does no work.
    Start,
    /// Every node has completed.
    Completed,
    /// Nodes are running and none is ready: wait for a completion.
    Waiting,
    /// Nodes remain, none runs, so none can become ready.
    Deadlocked,
    /// The schedule handed out a node that runs nothing.
    Unknown(NodeId),
}

impl<F> Runner<F> {
    /// All the tests, by index.
    pub fn all_tests(&self) -> (r: &Vec<TestConfig<F>>)
        ensures
            r@ == self.tests(),
    {
        &self.tests
    }

    /// The test at index `i`.
    pub fn test(&self, i: usize) -> (r: &TestConfig<F>)
        requires
            i < self.tests().len(),
        ensures
            *r == self.tests()[i as int],
    {
        &self.tests[i]
    }

    /// The fixture at index `f`.
    pub fn fixture(&self, f: usize) -> (r: &FixtureConfig<F>)
        requires
            f < self.fixtures().len(),
        ensures
            *r == self.fixtures()[f as int],
    {
        &self.fixtures[f]
    }

    /// The node of the test at index `i`.
    pub fn test_node(&self, i: usize) -> (r: NodeId)
        requires
            i < self.test_nodes().len(),
        ensures
            r == self.test_nodes()[i as int],
    {
        self.test_nodes[i]
    }

    /// Turns what the schedule handed out into a step, looking up what the node runs.
    fn step_for(&self, n: NextInSchedule) -> (r: Step)
        ensures
            n matches NextInSchedule::Next(id) ==> (if id == START_NODE {
                r == Step::Start
            } else if self.roles().contains_key(id) {
                r == Step::Run(id, self.roles()[id])
            } else {
                r == Step::Unknown(id)
            }),
            n == NextInSchedule::Completed ==> r == Step::Completed,
            n == NextInSchedule::Running ==> r == Step::Waiting,
    {
        match n {
            NextInSchedule::Next(id) => {
                if id == START_NODE {
                    Step::Start
                } else {
                    match self.roles.get(&id) {
                        Some(role) => Step::Run(id, *role),
                        None => Step::Unknown(id),
                    }
                }
            },
            NextInSchedule::Completed => Step::Completed,
            NextInSchedule::Running => Step::Waiting,
        }
    }

    /// Decides the next step of the run: the node at the head of the queue (the start node
    /// does no work, the caller only completes it), the end of the run, a wait for a running
    /// node, or a stall.
    pub fn next(&mut self) -> (r: Step)
        requires
            old(self).wf(),
        ensures
            final(self).wf(),
            final(self).tests() == old(self).tests(),
            final(self).fixtures() == old(self).fixtures(),
            final(self).test_nodes() == old(self).test_nodes(),
            final(self).roles() == old(self).roles(),
            final(self).schedule().nodes() == old(self).schedule().nodes(),
            final(self).schedule().active() == old(self).schedule().active(),
            old(self).schedule().queue().len() > 0 ==> final(self).schedule().queue()
                == old(self).schedule().queue().drop_first() && r == (
            if old(self).schedule().queue()[0] == START_NODE {
                Step::Start
            } else if old(self).roles().contains_key(old(self).schedule().queue()[0]) {
                Step::Run(old(self).schedule().queue()[0], old(self).roles()[old(self).schedule().queue()[0]])
            } else {
                Step::Unknown(old(self).schedule().queue()[0])
            }),
            old(self).schedule().queue().len() == 0 ==> final(self).schedule().queue()
                == old(self).schedule().queue() && r == (if old(self).schedule().stalled() {
                Step::Deadlocked
            } else if old(self).schedule().nodes().is_empty() {
                Step::Completed
            } else {
                Step::Waiting
            }),
            r matches Step::Run(_, NodeRole::Test(i)) ==> i < final(self).tests().len(),
            r matches Step::Run(_, NodeRole::Fixture(f)) ==> f < final(self).fixtures().len(),
            r == Step::Deadlocked ==> forall|k: NodeId| #[trigger] final(self).schedule().nodes().contains_key(k)
                ==> final(self).schedule().nodes()[k].dependency_count > 0,
    {
        proof {
            crate::schedule::lemma_finished_iff_no_node_left(&self.schedule);
        }
        if self.schedule.is_stalled() {
            proof {
                crate::schedule::lemma_stall_only_on_dependencies(&self.schedule);
            }
            return Step::Deadlocked;
        }
        let ghost s0 = self.schedule;
        let n = self.schedule.next();
        proof {
            self.lemma_keeps_conflicts(s0);
            if s0.queue().len() > 0 {
                s0.lemma_queued_are_active(0);
                s0.lemma_active_are_nodes(s0.queue()[0]);
            }
        }
        self.step_for(n)
    }

    proof fn lemma_keeps_conflicts(&self, before: Schedule)
        requires
            before.wf(),
            self.schedule.wf(),
            forall|x: int, y: int|
                0 <= x < self.tests@.len() && 0 <= y < self.tests@.len() && x != y && conflicts(
                    &self.tests@[x],
                    &self.tests@[y],
                ) && before.nodes().contains_key(self.test_nodes@[x])
                    ==> #[trigger] before.excludes(self.test_nodes@[x], self.test_nodes@[y]),
            self.schedule.nodes().dom().subset_of(before.nodes().dom()),
            forall|k: NodeId| #[trigger] self.schedule.nodes().contains_key(k)
                ==> self.schedule.nodes()[k].mutually_excludes@ == before.nodes()[k].mutually_excludes@,
        ensures
            forall|x: int, y: int|
                0 <= x < self.tests@.len() && 0 <= y < self.tests@.len() && x != y && conflicts(
                    &self.tests@[x],
                    &self.tests@[y],
                ) && self.schedule.nodes().contains_key(self.test_nodes@[x])
                    ==> #[trigger] self.schedule.excludes(self.test_nodes@[x], self.test_nodes@[y]),
    {
        assert forall|x: int, y: int|
            0 <= x < self.tests@.len() && 0 <= y < self.tests@.len() && x != y && conflicts(
                &self.tests@[x],
                &self.tests@[y],
            ) && self.schedule.nodes().contains_key(self.test_nodes@[x])
            implies #[trigger] self.schedule.excludes(self.test_nodes@[x], self.test_nodes@[y]) by {
            assert(before.nodes().contains_key(self.test_nodes@[x]));
            assert(before.excludes(self.test_nodes@[x], self.test_nodes@[y]));
        }
    }

    /// What is wrong with completing `id`, if anything.
    pub fn completion_error(&self, id: NodeId) -> (r: Option<CompletionError>)
        ensures
            r is None <==> self.schedule().can_complete(id),
    {
        self.schedule.completion_error(id)
    }

    /// Reports that a node handed out by `next` has run. Released nodes are queued exactly
    /// when no active node excludes them, and wait otherwise.
    pub fn complete(&mut self, id: NodeId)
        requires
            old(self).wf(),
            old(self).schedule().can_complete(id),
        ensures
            final(self).wf(),
            final(self).tests() == old(self).tests(),
            final(self).fixtures() == old(self).fixtures(),
            final(self).test_nodes() == old(self).test_nodes(),
            final(self).roles() == old(self).roles(),
            crate::schedule::same_edges(final(self).schedule().nodes(), old(self).schedule().nodes().remove(id)),
            !final(self).schedule().is_active(id),
            crate::schedule::extends(old(self).schedule().queue(), final(self).schedule().queue()),
            forall|k: NodeId| #[trigger] final(self).schedule().nodes().contains_key(k)
                ==> final(self).schedule().nodes()[k].dependency_count == crate::schedule::lowered(
                    old(self).schedule().nodes()[k].dependency_count,
                    crate::schedule::occurrences(old(self).schedule().nodes()[id].dependents@, k)),
            forall|k: NodeId| #[trigger] final(self).schedule().nodes().contains_key(k)
                && ((final(self).schedule().nodes()[k].dependency_count == 0
                && old(self).schedule().nodes()[k].dependency_count > 0) || old(self).schedule().waiting().contains(k))
                ==> (final(self).schedule().queue().contains(k) <==> !final(self).schedule().held_back(k))
                && (final(self).schedule().queue().contains(k) || final(self).schedule().waiting().contains(k)),
            final(self).schedule().queue().no_duplicates(),
            !final(self).schedule().waiting().contains(id),
            forall|k: NodeId| #[trigger] final(self).schedule().active().contains(k) <==> (
                old(self).schedule().active().remove(id).contains(k) || (final(self).schedule().queue().contains(k)
                && !old(self).schedule().queue().contains(k))),
            forall|k: NodeId| #[trigger] final(self).schedule().queue().contains(k) && !old(self).schedule().queue().contains(k)
                ==> final(self).schedule().nodes().contains_key(k) && !final(self).schedule().held_back(k)
                && ((old(self).schedule().nodes()[k].dependency_count > 0
                && final(self).schedule().nodes()[k].dependency_count == 0) || old(self).schedule().waiting().contains(k)),
    {
        let ghost before = self.schedule;
        self.schedule.complete_node(id);
        proof {
            lemma_completion_keeps_edges(before, self.schedule, id);
            self.lemma_keeps_conflicts(before);
        }
    }
}

proof fn lemma_completion_keeps_edges(before: Schedule, after: Schedule, id: NodeId)
    requires
        crate::schedule::same_edges(after.nodes(), before.nodes().remove(id)),
    ensures
        after.nodes().dom().subset_of(before.nodes().dom()),
        forall|k: NodeId| #[trigger] after.nodes().contains_key(k)
            ==> after.nodes()[k].mutually_excludes@ == before.nodes()[k].mutually_excludes@,
{
    assert forall|k: NodeId| #[trigger] after.nodes().contains_key(k)
        implies after.nodes()[k].mutually_excludes@ == before.nodes()[k].mutually_excludes@ by {
        assert(before.nodes().remove(id).contains_key(k));
    }
}

/// Two tests that conflict (a shared exclusion group, or one holding exclusively a resource
/// that the other borrows) are never active at the same time, in any state of a run.
pub proof fn lemma_conflicting_tests_never_overlap<F>(run: &Runner<F>, x: int, y: int)
    requires
        run.wf(),
        0 <= x < run.tests().len(),
        0 <= y < run.tests().len(),
        x != y,
        conflicts(&run.tests()[x], &run.tests()[y]),
    ensures
        !(run.schedule().is_active(run.test_nodes()[x]) && run.schedule().is_active(
            run.test_nodes()[y],
        )),
{
    let a = run.test_nodes()[x];
    let c = run.test_nodes()[y];
    if run.schedule().is_active(a) && run.schedule().is_active(c) {
        run.schedule().lemma_active_disjoint(a, c);
        run.schedule().lemma_active_are_nodes(a);
        assert(run.schedule().excludes(a, c));
    }
}


/// How one invocation of a test ended, once its expectation is taken into account.
#[derive(Clone, Copy, Debug, PartialEq, Eq, Structural)]
pub enum Outcome {
    /// The call succeeded as expected.
    Passed,
    /// The call failed, and the test expected it to.
    ExpectedFailure,
    /// The call failed though it should have succeeded, or succeeded though it should have
    /// failed.
    UnexpectedFailure,
}

impl Outcome {
    /// The invocation counts as a pass.
    pub open spec fn passes(self) -> bool {
        self != Outcome::UnexpectedFailure
    }
}

/// The outcome of a call: a test that should fail passes only when its call fails.
pub fn judge(should_panic: bool, call_succeeded: bool) -> (r: Outcome)
    ensures
        r.passes() == (call_succeeded != should_panic),
        r == Outcome::ExpectedFailure <==> should_panic && !call_succeeded,
        r == Outcome::Passed <==> !should_panic && call_succeeded,
{
    if call_succeeded == should_panic {
        Outcome::UnexpectedFailure
    } else if should_panic {
        Outcome::ExpectedFailure
    } else {
        Outcome::Passed
    }
}

} // verus!
