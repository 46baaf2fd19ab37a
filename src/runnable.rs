use crate::config::{FixtureConfig, InputRef, TestConfig, TypeIdentity};
use vstd::prelude::*;

verus! {

/// A function to invoke and the resources it declares.
pub struct BasicRunnable<F> {
    pub inputs: Vec<InputRef<TypeIdentity>>,
    pub runner: F,
}

/// A test: a runnable with its expectations.
pub struct TestRunnable<F> {
    /// The call is expected to fail.
    pub should_panic: bool,
    /// The call should run in a child process.
    pub subprocess: bool,
    pub basic_runnable: BasicRunnable<F>,
}

/// A fixture: a runnable that produces one value.
pub struct FixtureRunnable<F> {
    pub runnable: BasicRunnable<F>,
}

/// What the engine needs of a test or fixture to invoke it.
pub trait Runnable<F> {
    /// The resources the call declares, in order.
    fn inputs(&self) -> &Vec<InputRef<TypeIdentity>>;

    /// The function to call.
    fn runner(&self) -> &F;

    /// The call is expected to fail.
    fn should_panic(&self) -> bool;
}

impl<F> Runnable<F> for TestRunnable<F> {
    fn inputs(&self) -> &Vec<InputRef<TypeIdentity>> {
        &self.basic_runnable.inputs
    }

    fn runner(&self) -> &F {
        &self.basic_runnable.runner
    }

    fn should_panic(&self) -> bool {
        self.should_panic
    }
}

impl<F> Runnable<F> for FixtureRunnable<F> {
    fn inputs(&self) -> &Vec<InputRef<TypeIdentity>> {
        &self.runnable.inputs
    }

    fn runner(&self) -> &F {
        &self.runnable.runner
    }

    fn should_panic(&self) -> bool {
        false
    }
}

/// A copy of a list of inputs.
pub fn copy_inputs(inputs: &Vec<InputRef<TypeIdentity>>) -> (r: Vec<InputRef<TypeIdentity>>)
    ensures
        r@ == inputs@,
{
    let mut r: Vec<InputRef<TypeIdentity>> = Vec::new();
    let mut i: usize = 0;
    while i < inputs.len()
        invariant
            0 <= i <= inputs@.len(),
            r@ == inputs@.take(i as int),
        decreases inputs@.len() - i,
    {
        r.push(inputs[i]);
        proof {
            assert(inputs@.take(i + 1) =~= inputs@.take(i as int).push(inputs@[i as int]));
        }
        i = i + 1;
    }
    proof {
        assert(inputs@.take(i as int) =~= inputs@);
    }
    r
}

impl<F: Copy> TestRunnable<F> {
    /// The runnable of a configured test.
    pub fn from_config(config: &TestConfig<F>) -> (r: TestRunnable<F>)
        ensures
            r.should_panic == config.should_panic,
            r.subprocess == config.subprocess,
            r.basic_runnable.inputs@ == config.inputs@,
            r.basic_runnable.runner == config.runnable_fn,
    {
        TestRunnable {
            should_panic: config.should_panic,
            subprocess: config.subprocess,
            basic_runnable: BasicRunnable { inputs: copy_inputs(&config.inputs), runner: config.runnable_fn },
        }
    }
}

impl<F: Copy> FixtureRunnable<F> {
    /// The runnable of a configured fixture; fixtures take no inputs.
    pub fn from_config(config: &FixtureConfig<F>) -> (r: FixtureRunnable<F>)
        ensures
            r.runnable.inputs@.len() == 0,
            r.runnable.runner == config.runnable_fn,
    {
        FixtureRunnable { runnable: BasicRunnable { inputs: Vec::new(), runner: config.runnable_fn } }
    }
}

} // verus!
