//! CPU topology discovery and thread-placement planning.
//!
//! Core counts come from the `num_cpus` crate; the layout rule that maps
//! worker threads to cores is computed and verified here. Actually binding
//! a thread to a core is an operating-system call and lives outside the
//! library, which only plans the placement.

use vstd::prelude::*;

verus! {

/// `s` assigns `num_threads` threads to `cpus` cores: one core per thread
/// when the cores suffice, round-robin otherwise.
pub open spec fn round_robin_layout(num_threads: int, cpus: int, s: Seq<usize>) -> bool
    recommends
        cpus >= 1,
{
    &&& s.len() == num_threads
    &&& forall|i: int|
        0 <= i < s.len() ==> s[i] == if num_threads <= cpus {
            i
        } else {
            i % cpus
        }
}

/// CPU topology and placement planning.
pub struct CpuAffinity;

impl CpuAffinity {
    /// The number of logical CPUs available to the process. Relies on
    /// `num_cpus::get`, documented to always return at least 1.
    #[verifier::external_body]
    pub fn num_cpus() -> (n: usize)
        ensures
            n >= 1,
    {
        num_cpus::get()
    }

    /// The number of physical CPU cores. Relies on
    /// `num_cpus::get_physical`, documented to always return at least 1.
    #[verifier::external_body]
    pub fn num_physical_cpus() -> (n: usize)
        ensures
            n >= 1,
    {
        num_cpus::get_physical()
    }

    /// The core index each of `num_threads` threads should bind to, given
    /// `cpus` available cores: each thread its own core when the cores
    /// suffice, round-robin otherwise.
    #[verifier::loop_isolation(false)]
    pub fn layout_for(num_threads: usize, cpus: usize) -> (r: Vec<usize>)
        requires
            cpus >= 1,
        ensures
            round_robin_layout(num_threads as int, cpus as int, r@),
    {
        let mut r: Vec<usize> = Vec::new();
        let mut i: usize = 0;
        while i < num_threads
            invariant
                0 <= i <= num_threads,
                r@.len() == i,
                forall|m: int|
                    0 <= m < i ==> r@[m] == if num_threads <= cpus {
                        m
                    } else {
                        m % (cpus as int)
                    },
            decreases num_threads - i,
        {
            if num_threads <= cpus {
                r.push(i);
            } else {
                r.push(i % cpus);
            }
            i = i + 1;
        }
        r
    }

    /// The recommended binding for `num_threads` threads on this machine's
    /// logical cores.
    pub fn get_thread_affinity_config(num_threads: usize) -> (r: Vec<usize>)
        ensures
            exists|cpus: int| cpus >= 1 && round_robin_layout(num_threads as int, cpus, r@),
    {
        let cpus = CpuAffinity::num_cpus();
        let r = CpuAffinity::layout_for(num_threads, cpus);
        proof {
            assert(cpus >= 1 && round_robin_layout(num_threads as int, cpus as int, r@));
        }
        r
    }
}

/// A plan for one thread: which core to bind it to and what to call it.
/// Spawning the thread (and performing the binding) is an operating-system
/// concern outside the library; this type only accumulates the plan.
pub struct ThreadBuilder {
    pub cpu_id: Option<usize>,
    pub name: Option<String>,
}

impl ThreadBuilder {
    /// A plan with no core and no name chosen yet.
    pub fn new() -> (r: ThreadBuilder)
        ensures
            r.cpu_id is None,
            r.name is None,
    {
        ThreadBuilder { cpu_id: None, name: None }
    }

    /// Choose the core to bind the thread to.
    pub fn cpu(self, cpu_id: usize) -> (r: ThreadBuilder)
        ensures
            r.cpu_id == Some(cpu_id),
            r.name == self.name,
    {
        ThreadBuilder { cpu_id: Some(cpu_id), ..self }
    }

    /// Choose the thread's name.
    pub fn name(self, name: String) -> (r: ThreadBuilder)
        ensures
            r.name matches Some(n) && n@ == name@,
            r.cpu_id == self.cpu_id,
    {
        ThreadBuilder { name: Some(name), ..self }
    }
}

} // verus!
