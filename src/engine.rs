use crate::config::{FixtureConfig, InputRef, TestConfig, TypeIdentity};
use crate::runner::{BuildError, Runner};
use vstd::prelude::*;

verus! {

/// What a label groups tests by.
#[derive(Clone, Debug, PartialEq, Eq, Hash)]
pub enum Label {
    /// Membership of a user-named exclusion group.
    User(String),
    /// Borrowing (shared or exclusive) a resource of this type.
    Dependency(TypeIdentity),
}

/// The test carries the label.
pub open spec fn has_label<F>(test: &TestConfig<F>, label: &Label) -> bool {
    match label {
        Label::User(g) => test.exclusion_group.is_some() && test.exclusion_group.unwrap()@ == g@,
        Label::Dependency(t) => exists|k: int|
            0 <= k < test.inputs@.len() && (#[trigger] test.inputs@[k]).borrows()
                && *test.inputs@[k].inner_spec() == *t,
    }
}

/// Whether the test carries the label.
pub fn carries<F>(test: &TestConfig<F>, label: &Label) -> (r: bool)
    ensures
        r == has_label(test, label),
{
    match label {
        Label::User(g) => match &test.exclusion_group {
            Some(own) => own.eq(g),
            None => false,
        },
        Label::Dependency(t) => {
            let mut k: usize = 0;
            while k < test.inputs.len()
                invariant
                    0 <= k <= test.inputs@.len(),
                    *label == Label::Dependency(*t),
                    forall|j: int|
                        0 <= j < k ==> !((#[trigger] test.inputs@[j]).borrows()
                            && *test.inputs@[j].inner_spec() == *t),
                decreases test.inputs@.len() - k,
            {
                let input = test.inputs[k];
                if !matches!(input, InputRef::Owned(_)) && input.id() == *t {
                    proof {
                        assert(test.inputs@[k as int].borrows() && *test.inputs@[k as int].inner_spec() == *t);
                    }
                    return true;
                }
                k = k + 1;
            }
            false
        },
    }
}

/// The indices of the tests that carry the label, in order.
pub fn label_members<F>(tests: &Vec<TestConfig<F>>, label: &Label) -> (r: Vec<usize>)
    ensures
        forall|j: int| 0 <= j < r@.len() ==> r@[j] < tests@.len() && has_label(&tests@[r@[j] as int], label),
        forall|j: int, l: int| 0 <= j < l < r@.len() ==> r@[j] < r@[l],
        forall|i: int| 0 <= i < tests@.len() && has_label(&tests@[i], label) ==> r@.contains(i as usize),
{
    let mut r: Vec<usize> = Vec::new();
    let mut i: usize = 0;
    while i < tests.len()
        invariant
            0 <= i <= tests@.len(),
            forall|j: int| 0 <= j < r@.len() ==> r@[j] < i && has_label(&tests@[r@[j] as int], label),
            forall|j: int, l: int| 0 <= j < l < r@.len() ==> r@[j] < r@[l],
            forall|x: int| 0 <= x < i && has_label(&tests@[x], label) ==> r@.contains(x as usize),
        decreases tests@.len() - i,
    {
        if carries(&tests[i], label) {
            let ghost before = r@;
            r.push(i);
            proof {
                assert forall|x: int| 0 <= x < i + 1 && has_label(&tests@[x], label) implies r@.contains(x as usize) by {
                    if x < i {
                        let j = before.index_of(x as usize);
                        assert(r@[j] == x as usize);
                    } else {
                        assert(r@[before.len() as int] == x as usize);
                    }
                }
            }
        }
        i = i + 1;
    }
    r
}

/// Hooks run around the tests of a group; none exist yet.
pub struct LifeCycle {}

/// The tests declared in one module.
pub struct TestGroup {
    pub name: String,
    pub lifecycle: LifeCycle,
    /// Indices of the member tests, in order.
    pub tests: Vec<usize>,
}

/// Each test belongs to the group of its module, and only to it; group names are distinct.
pub open spec fn grouped_by_module<F>(tests: Seq<TestConfig<F>>, n: int, groups: Seq<TestGroup>) -> bool {
    &&& forall|g: int, h: int| 0 <= g < h < groups.len() ==> #[trigger] groups[g].name@ != #[trigger] groups[h].name@
    &&& forall|g: int, j: int|
        0 <= g < groups.len() && 0 <= j < groups[g].tests@.len() ==> #[trigger] groups[g].tests@[j] < n
            && tests[groups[g].tests@[j] as int].module@ == groups[g].name@
    &&& forall|i: int| 0 <= i < n ==> #[trigger] in_some_group(groups, i)
}

/// Some group holds test `i`.
pub open spec fn in_some_group(groups: Seq<TestGroup>, i: int) -> bool {
    exists|g: int| 0 <= g < groups.len() && #[trigger] groups[g].tests@.contains(i as usize)
}

/// Groups the tests by the module they are declared in, in order of first appearance.
pub fn group_by_module<F>(tests: &Vec<TestConfig<F>>) -> (r: Vec<TestGroup>)
    ensures
        grouped_by_module(tests@, tests@.len() as int, r@),
{
    let mut groups: Vec<TestGroup> = Vec::new();
    let mut i: usize = 0;
    while i < tests.len()
        invariant
            0 <= i <= tests@.len(),
            grouped_by_module(tests@, i as int, groups@),
        decreases tests@.len() - i,
    {
        let module = &tests[i].module;
        let mut g: usize = 0;
        while g < groups.len() && !groups[g].name.eq(module)
            invariant
                0 <= g <= groups@.len(),
                forall|h: int| 0 <= h < g ==> groups@[h].name@ != module@,
            decreases groups@.len() - g,
        {
            g = g + 1;
        }
        let ghost before = groups@;
        if g < groups.len() {
            let mut group = groups.remove(g);
            group.tests.push(i);
            groups.insert(g, group);
            proof {
                assert forall|h: int| 0 <= h < groups@.len() && h != g implies groups@[h] == before[h] by {}
                assert forall|h: int, j: int|
                    0 <= h < groups@.len() && 0 <= j < groups@[h].tests@.len() implies #[trigger] groups@[h].tests@[j] < i + 1
                        && tests@[groups@[h].tests@[j] as int].module@ == groups@[h].name@ by {
                    if h == g && j < before[h].tests@.len() {
                        assert(groups@[h].tests@[j] == before[h].tests@[j]);
                    }
                }
                assert forall|h: int, l: int| 0 <= h < l < groups@.len() implies #[trigger] groups@[h].name@ != #[trigger] groups@[l].name@ by {
                    assert(before[h].name@ != before[l].name@);
                }
                assert forall|x: int| 0 <= x < i + 1 implies #[trigger] in_some_group(groups@, x) by {
                    if x < i {
                        assert(in_some_group(before, x));
                        let h = choose|h: int| 0 <= h < before.len() && #[trigger] before[h].tests@.contains(x as usize);
                        if h != g {
                            assert(groups@[h] == before[h]);
                        } else {
                            let j = before[h].tests@.index_of(x as usize);
                            assert(groups@[h].tests@[j] == x as usize);
                        }
                        assert(groups@[h].tests@.contains(x as usize));
                    } else {
                        let j = before[g as int].tests@.len() as int;
                        assert(groups@[g as int].tests@[j] == x as usize);
                        assert(groups@[g as int].tests@.contains(x as usize));
                    }
                }
            }
        } else {
            let mut members: Vec<usize> = Vec::new();
            members.push(i);
            groups.push(TestGroup { name: module.clone(), lifecycle: LifeCycle {}, tests: members });
            proof {
                assert forall|h: int, l: int| 0 <= h < l < groups@.len() implies #[trigger] groups@[h].name@ != #[trigger] groups@[l].name@ by {
                    if l < before.len() {
                        assert(before[h].name@ != before[l].name@);
                    }
                }
                assert forall|h: int, j: int|
                    0 <= h < groups@.len() && 0 <= j < groups@[h].tests@.len() implies #[trigger] groups@[h].tests@[j] < i + 1
                        && tests@[groups@[h].tests@[j] as int].module@ == groups@[h].name@ by {
                    if h < before.len() {
                        assert(groups@[h] == before[h]);
                    }
                }
                assert forall|x: int| 0 <= x < i + 1 implies #[trigger] in_some_group(groups@, x) by {
                    if x < i {
                        assert(in_some_group(before, x));
                        let h = choose|h: int| 0 <= h < before.len() && #[trigger] before[h].tests@.contains(x as usize);
                        assert(groups@[h] == before[h]);
                        assert(groups@[h].tests@.contains(x as usize));
                    } else {
                        assert(groups@[before.len() as int].tests@[0] == x as usize);
                        assert(groups@[before.len() as int].tests@.contains(x as usize));
                    }
                }
            }
        }
        i = i + 1;
    }
    groups
}

/// A test run: its module groups and the runner that schedules its nodes.
pub struct Engine<F> {
    pub groups: Vec<TestGroup>,
    pub runner: Runner<F>,
}

impl<F> Engine<F> {
    /// Groups the tests by module and builds the graph of the run.
    pub fn new(tests: Vec<TestConfig<F>>, fixtures: Vec<FixtureConfig<F>>) -> (r: Result<Engine<F>, BuildError>)
        ensures
            !crate::runner::all_produced(tests@, fixtures@) <==> r matches Err(BuildError::MissingProducer(_)),
            tests@.len() == 0 ==> r is Ok,
            r matches Ok(e) ==> grouped_by_module(tests@, tests@.len() as int, e.groups@)
                && crate::runner::built(&e.runner, tests@, fixtures@),
    {
        let groups = group_by_module(&tests);
        let ghost t = tests@;
        match Runner::new(tests, fixtures) {
            Ok(runner) => Ok(Engine { groups, runner }),
            Err(e) => Err(e),
        }
    }

    /// The label index: the indices of the tests that carry `label`, in order.
    pub fn members(&self, label: &Label) -> (r: Vec<usize>)
        ensures
            forall|j: int| 0 <= j < r@.len() ==> r@[j] < self.runner.tests().len()
                && has_label(&self.runner.tests()[r@[j] as int], label),
            forall|j: int, l: int| 0 <= j < l < r@.len() ==> r@[j] < r@[l],
            forall|i: int| 0 <= i < self.runner.tests().len() && has_label(&self.runner.tests()[i], label)
                ==> r@.contains(i as usize),
    {
        label_members(self.runner.all_tests(), label)
    }
}

} // verus!
