use vstd::prelude::*;

verus! {

/// A set of CPU cores for thread affinity binding, held as the list of
/// their indices in the order they were given.
#[derive(Debug, Clone, PartialEq, Eq)]
pub struct CpuSet {
    cpus: Vec<usize>,
}

impl View for CpuSet {
    type V = Seq<usize>;

    closed spec fn view(&self) -> Seq<usize> {
        self.cpus@
    }
}

/// The indices `from, from + 1, ..., to`.
pub open spec fn spec_cpu_range(from: int, to: int) -> Seq<usize> {
    if from <= to {
        Seq::new((to - from + 1) as nat, |k: int| (from + k) as usize)
    } else {
        Seq::empty()
    }
}

impl CpuSet {
    /// A set containing a single CPU core.
    pub fn single(cpu: usize) -> (r: Self)
        ensures
            r@ == seq![cpu],
    {
        let mut cpus: Vec<usize> = Vec::new();
        cpus.push(cpu);
        CpuSet { cpus }
    }

    /// The set of the inclusive range `[from, to]`; `from <= to` is
    /// required (the range is refused otherwise).
    pub fn range(from: usize, to: usize) -> (r: Self)
        requires
            from <= to,
        ensures
            r@ == spec_cpu_range(from as int, to as int),
    {
        let mut cpus: Vec<usize> = Vec::new();
        let mut i: usize = from;
        while i < to
            invariant
                from <= i <= to,
                cpus@ == spec_cpu_range(from as int, i - 1),
            decreases to - i,
        {
            cpus.push(i);
            assert(cpus@ =~= spec_cpu_range(from as int, i as int));
            i = i + 1;
        }
        cpus.push(to);
        assert(cpus@ =~= spec_cpu_range(from as int, to as int));
        CpuSet { cpus }
    }

    /// A set holding exactly the given indices, in order.
    pub fn from_cpus(cpus: Vec<usize>) -> (r: Self)
        ensures
            r@ == cpus@,
    {
        CpuSet { cpus }
    }

    /// The CPU indices in this set.
    pub fn cpus(&self) -> (r: &[usize])
        ensures
            r@ == self@,
    {
        self.cpus.as_slice()
    }

    /// Number of CPUs in the set.
    pub fn len(&self) -> (r: usize)
        ensures
            r == self@.len(),
    {
        self.cpus.len()
    }

    /// Whether the set holds no CPU.
    pub fn is_empty(&self) -> (r: bool)
        ensures
            r == (self@.len() == 0),
    {
        self.cpus.len() == 0
    }
}

} // verus!
