use vstd::prelude::*;

verus! {

/// Stable key for the type of value that a fixture produces and a test consumes.
pub type TypeIdentity = u64;

/// How a node consumes a resource.
#[derive(Clone, Copy, Debug, PartialEq, Eq, Structural)]
pub enum InputRef<T> {
    Shared(T),
    Exclusive(T),
    Owned(T),
}

impl<T> InputRef<T> {
    pub open spec fn inner_spec(&self) -> &T {
        match self {
            InputRef::Shared(t) => t,
            InputRef::Exclusive(t) => t,
            InputRef::Owned(t) => t,
        }
    }

    pub fn shared(inner: T) -> (r: Self)
        ensures
            r == InputRef::Shared(inner),
    {
        InputRef::Shared(inner)
    }

    pub fn exclusive(inner: T) -> (r: Self)
        ensures
            r == InputRef::Exclusive(inner),
    {
        InputRef::Exclusive(inner)
    }

    pub fn owned(inner: T) -> (r: Self)
        ensures
            r == InputRef::Owned(inner),
    {
        InputRef::Owned(inner)
    }

    pub fn inner(&self) -> (r: &T)
        ensures
            r == self.inner_spec(),
    {
        match self {
            InputRef::Shared(inner) => inner,
            InputRef::Exclusive(inner) => inner,
            InputRef::Owned(inner) => inner,
        }
    }
}

impl InputRef<TypeIdentity> {
    pub fn id(&self) -> (r: TypeIdentity)
        ensures
            r == *self.inner_spec(),
    {
        *self.inner()
    }
}


impl<T: Copy> InputRef<T> {
    /// The input takes a borrow (shared or exclusive) of the resource.
    pub open spec fn borrows(&self) -> bool {
        !(self is Owned)
    }
}

/// Two inputs cannot be held at once: both borrow the same resource and one of them is
/// exclusive.
pub open spec fn clash(a: InputRef<TypeIdentity>, b: InputRef<TypeIdentity>) -> bool {
    &&& a.borrows()
    &&& b.borrows()
    &&& a.inner_spec() == b.inner_spec()
    &&& (a is Exclusive || b is Exclusive)
}

/// Everything the engine needs to know of a test. `F` is the function that runs it.
pub struct TestConfig<F> {
    /// The test is expected to fail.
    pub should_panic: bool,
    /// The test should run in a child process.
    pub subprocess: bool,
    /// The resources the test consumes, in order.
    pub inputs: Vec<InputRef<TypeIdentity>>,
    /// Tests that share this name never run at the same time.
    pub exclusion_group: Option<String>,
    pub runnable_fn: F,
    /// The module the test is declared in.
    pub module: String,
    /// The name of the test; unique together with `module`.
    pub name: String,
}

/// Everything the engine needs to know of a fixture. `F` is the function that produces its
/// value.
pub struct FixtureConfig<F> {
    /// The fixture's own inputs; fixtures that depend on fixtures are not supported, so this
    /// is empty.
    pub inputs: Vec<InputRef<TypeIdentity>>,
    /// The type of the value it produces.
    pub output: TypeIdentity,
    pub runnable_fn: F,
    /// The module the producer is declared in.
    pub module: String,
    /// The name of the producer.
    pub name: String,
}

/// Two tests must never be active together: they share an exclusion group, or one holds a
/// resource exclusively that the other borrows too.
pub open spec fn conflicts<F>(a: &TestConfig<F>, b: &TestConfig<F>) -> bool {
    ||| (a.exclusion_group.is_some() && b.exclusion_group.is_some() && a.exclusion_group.unwrap()@
        == b.exclusion_group.unwrap()@)
    ||| exists|i: int, j: int|
        0 <= i < a.inputs@.len() && 0 <= j < b.inputs@.len() && #[trigger] clash(
            a.inputs@[i],
            b.inputs@[j],
        )
}

/// Some fixture produces values of type `t`.
pub open spec fn produced<F>(fixtures: Seq<FixtureConfig<F>>, t: TypeIdentity) -> bool {
    exists|f: int| 0 <= f < fixtures.len() && #[trigger] fixtures[f].output == t
}

/// Whether two inputs clash.
pub fn inputs_clash(a: &InputRef<TypeIdentity>, b: &InputRef<TypeIdentity>) -> (r: bool)
    ensures
        r == clash(*a, *b),
{
    match (a, b) {
        (InputRef::Owned(_), _) => false,
        (_, InputRef::Owned(_)) => false,
        (InputRef::Shared(x), InputRef::Shared(y)) => false,
        _ => a.id() == b.id(),
    }
}

/// Whether two tests must never be active together.
pub fn tests_conflict<F>(a: &TestConfig<F>, b: &TestConfig<F>) -> (r: bool)
    ensures
        r == conflicts(a, b),
{
    match (&a.exclusion_group, &b.exclusion_group) {
        (Some(ga), Some(gb)) => {
            if ga.eq(gb) {
                return true;
            }
        },
        _ => {},
    }
    let mut i: usize = 0;
    while i < a.inputs.len()
        invariant
            0 <= i <= a.inputs@.len(),
            !(a.exclusion_group.is_some() && b.exclusion_group.is_some()
                && a.exclusion_group.unwrap()@ == b.exclusion_group.unwrap()@),
            forall|x: int, y: int|
                0 <= x < i && 0 <= y < b.inputs@.len() ==> !#[trigger] clash(
                    a.inputs@[x],
                    b.inputs@[y],
                ),
        decreases a.inputs@.len() - i,
    {
        let mut j: usize = 0;
        while j < b.inputs.len()
            invariant
                0 <= i < a.inputs@.len(),
                0 <= j <= b.inputs@.len(),
                forall|x: int, y: int|
                    0 <= x < i && 0 <= y < b.inputs@.len() ==> !#[trigger] clash(
                        a.inputs@[x],
                        b.inputs@[y],
                    ),
                forall|y: int| 0 <= y < j ==> !#[trigger] clash(a.inputs@[i as int], b.inputs@[y]),
            decreases b.inputs@.len() - j,
        {
            if inputs_clash(&a.inputs[i], &b.inputs[j]) {
                return true;
            }
            j = j + 1;
        }
        i = i + 1;
    }
    false
}

/// The index of a fixture that produces `t`, if any.
pub fn producer_of<F>(fixtures: &Vec<FixtureConfig<F>>, t: TypeIdentity) -> (r: Option<usize>)
    ensures
        r is None <==> !produced(fixtures@, t),
        r matches Some(f) ==> f < fixtures@.len() && fixtures@[f as int].output == t
            && forall|g: int| 0 <= g < f ==> #[trigger] fixtures@[g].output != t,
{
    let mut f: usize = 0;
    while f < fixtures.len()
        invariant
            0 <= f <= fixtures@.len(),
            forall|g: int| 0 <= g < f ==> #[trigger] fixtures@[g].output != t,
        decreases fixtures@.len() - f,
    {
        if fixtures[f].output == t {
            return Some(f);
        }
        f = f + 1;
    }
    None
}

} // verus!
