use vstd::prelude::*;

use crate::sieve::{supported, PrimeSieve};

verus! {

/// The timed benchmark: fresh sieve passes over one limit until a time budget
/// is spent. The clock is read by the caller, which hands in the elapsed time
/// after each pass.
pub struct Benchmark {
    limit: u64,
    budget_micros: u64,
    passes: u32,
}

impl Benchmark {
    pub closed spec fn limit(&self) -> u64 {
        self.limit
    }

    pub closed spec fn budget(&self) -> u64 {
        self.budget_micros
    }

    pub closed spec fn pass_count(&self) -> u32 {
        self.passes
    }

    pub open spec fn wf(&self) -> bool {
        supported(self.limit() as int)
    }

    /// Whether the run may stop and report, `elapsed_micros` after it began:
    /// only once a pass is complete and the budget is spent.
    pub open spec fn done_at(&self, elapsed_micros: u64) -> bool {
        self.pass_count() >= 1 && elapsed_micros >= self.budget()
    }

    /// A benchmark over `limit` with a budget of `budget_micros` microseconds
    /// and no pass made yet.
    pub fn new(limit: u64, budget_micros: u64) -> (r: Benchmark)
        requires
            supported(limit as int),
        ensures
            r.wf(),
            r.limit() == limit,
            r.budget() == budget_micros,
            r.pass_count() == 0,
    {
        Benchmark { limit, budget_micros, passes: 0 }
    }

    /// Makes one full pass: a fresh sieve, run to completion, and counted.
    pub fn run_pass(&mut self) -> (r: PrimeSieve)
        requires
            old(self).wf(),
            old(self).pass_count() < u32::MAX,
        ensures
            final(self).wf(),
            final(self).limit() == old(self).limit(),
            final(self).budget() == old(self).budget(),
            final(self).pass_count() == old(self).pass_count() + 1,
            r.wf(),
            r.limit() == old(self).limit(),
            r.sieved(),
    {
        let mut sieve = PrimeSieve::new(self.limit);
        sieve.run_sieve_no_iterators();
        self.passes = self.passes + 1;
        sieve
    }

    /// Whether to stop now, `elapsed_micros` after the run began.
    pub fn finished(&self, elapsed_micros: u64) -> (r: bool)
        ensures
            r == self.done_at(elapsed_micros),
    {
        self.passes >= 1 && elapsed_micros >= self.budget_micros
    }

    /// Passes completed so far.
    pub fn passes(&self) -> (r: u32)
        ensures
            r == self.pass_count(),
    {
        self.passes
    }

    /// The limit every pass sieves.
    pub fn limit_value(&self) -> (r: u64)
        ensures
            r == self.limit(),
    {
        self.limit
    }
}

/// The run never stops before a full pass: whatever the budget, even none,
/// stopping implies at least one pass; with a spent budget one pass suffices.
pub proof fn lemma_never_zero_passes(b: &Benchmark, elapsed_micros: u64)
    ensures
        b.done_at(elapsed_micros) ==> b.pass_count() >= 1,
        b.budget() <= elapsed_micros && b.pass_count() >= 1 ==> b.done_at(elapsed_micros),
{
}

} // verus!
