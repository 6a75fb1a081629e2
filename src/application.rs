use vstd::prelude::*;

verus! {

/// The figures recorded for one benchmark run.
#[derive(Debug)]
pub struct BenchmarkStats {
    pub number_of_fixed_nodes: usize,
    pub number_of_free_nodes: usize,
    pub number_of_edges: usize,
    pub loading_elapsed: u128,
    pub reduction_elapsed: u128,
    pub ordering_elapsed: u128,
}

/// The driver that runs the benchmark suites.
pub struct Application {}

impl Application {
    /// A new driver.
    pub fn new() -> (a: Application)
        ensures
            a == (Application {  }),
    {
        Application {  }
    }
}

impl Default for Application {
    fn default() -> (a: Application)
        ensures
            a == (Application {  }),
    {
        Application::new()
    }
}

} // verus!
