//! Named assertions and the sets of them that are reported as unsatisfiable.
use crate::term::TermId;
use crate::term::FALSE_TERM;
use vstd::prelude::*;

verus! {

/// An assertion with its position and, if it was given one, its name.
#[derive(Debug)]
pub struct NamedAssertion {
    pub term: TermId,
    pub name: Option<String>,
    pub index: u32,
}

/// The positions and names of assertions that are unsatisfiable together.
#[derive(Debug)]
pub struct UnsatCore {
    pub names: Vec<String>,
    pub indices: Vec<u32>,
}

impl UnsatCore {
    /// No assertion.
    pub fn new() -> (c: UnsatCore)
        ensures
            c.names@.len() == 0,
            c.indices@.len() == 0,
    {
        UnsatCore { names: Vec::new(), indices: Vec::new() }
    }

    /// Whether no assertion is listed.
    pub fn is_empty(&self) -> (r: bool)
        ensures
            r == (self.indices@.len() == 0),
    {
        self.indices.len() == 0
    }

    /// The number of listed assertions.
    pub fn len(&self) -> (n: usize)
        ensures
            n == self.indices@.len(),
    {
        self.indices.len()
    }
}

impl Default for UnsatCore {
    fn default() -> (c: UnsatCore)
        ensures
            c.names@.len() == 0,
            c.indices@.len() == 0,
    {
        UnsatCore::new()
    }
}


/// The positions of the first `k` named assertions.
pub open spec fn all_indices(named: Seq<NamedAssertion>, k: int) -> Seq<u32>
    decreases k,
{
    if k <= 0 {
        Seq::empty()
    } else {
        all_indices(named, k - 1).push(named[k - 1].index)
    }
}

/// The names of the first `k` named assertions, as far as they have one.
pub open spec fn all_names(named: Seq<NamedAssertion>, k: int) -> Seq<String>
    decreases k,
{
    if k <= 0 {
        Seq::empty()
    } else {
        match named[k - 1].name {
            Some(n) => all_names(named, k - 1).push(n),
            None => all_names(named, k - 1),
        }
    }
}

/// The set of all named assertions, if sets are to be produced.
pub fn build_unsat_core(named: &Vec<NamedAssertion>, produce: bool) -> (r: Option<UnsatCore>)
    ensures
        r is Some <==> produce,
        r matches Some(c) ==> c.indices@ == all_indices(named@, named@.len() as int) && c.names@ == all_names(
            named@,
            named@.len() as int,
        ),
{
    if !produce {
        return None;
    }
    let mut c = UnsatCore::new();
    let mut i: usize = 0;
    while i < named.len()
        invariant
            i <= named.len(),
            c.indices@ == all_indices(named@, i as int),
            c.names@ == all_names(named@, i as int),
        decreases named.len() - i,
    {
        c.indices.push(named[i].index);
        if let Some(name) = &named[i].name {
            c.names.push(name.clone());
        }
        i = i + 1;
    }
    Some(c)
}

/// The positions of the term `false` among the first `k` assertions.
pub open spec fn false_positions(assertions: Seq<TermId>, k: int) -> Seq<u32>
    decreases k,
{
    if k <= 0 {
        Seq::empty()
    } else if assertions[k - 1] == FALSE_TERM {
        false_positions(assertions, k - 1).push((k - 1) as u32)
    } else {
        false_positions(assertions, k - 1)
    }
}

/// The first named assertion at a position.
pub open spec fn first_at(named: Seq<NamedAssertion>, index: u32, k: int) -> Option<NamedAssertion>
    decreases named.len() - k,
{
    if k >= named.len() || k < 0 {
        None
    } else if named[k].index == index {
        Some(named[k])
    } else {
        first_at(named, index, k + 1)
    }
}

/// The names of the assertions at the first `k` listed positions, as far as they have one.
pub open spec fn names_at(named: Seq<NamedAssertion>, indices: Seq<u32>, k: int) -> Seq<String>
    decreases k,
{
    if k <= 0 {
        Seq::empty()
    } else {
        match first_at(named, indices[k - 1], 0) {
            Some(a) => match a.name {
                Some(n) => names_at(named, indices, k - 1).push(n),
                None => names_at(named, indices, k - 1),
            },
            None => names_at(named, indices, k - 1),
        }
    }
}

/// Names of listed positions depend on those positions only.
pub(crate) proof fn lemma_names_prefix(named: Seq<NamedAssertion>, a: Seq<u32>, b: Seq<u32>, k: int)
    requires
        forall|i: int| 0 <= i < k ==> a[i] == b[i],
    ensures
        names_at(named, a, k) == names_at(named, b, k),
    decreases k,
{
    if k > 0 {
        lemma_names_prefix(named, a, b, k - 1);
    }
}

/// The name of the assertion at a position.
pub(crate) fn name_at(named: &Vec<NamedAssertion>, index: u32) -> (r: Option<String>)
    ensures
        r == match first_at(named@, index, 0) {
            Some(a) => a.name,
            None => None::<String>,
        },
{
    let mut i: usize = 0;
    while i < named.len()
        invariant
            i <= named.len(),
            first_at(named@, index, 0) == first_at(named@, index, i as int),
        decreases named.len() - i,
    {
        if named[i].index == index {
            return match &named[i].name {
                Some(n) => Some(n.clone()),
                None => None,
            };
        }
        i = i + 1;
    }
    None
}

/// The assertions that are the term `false`, if sets are to be produced.
pub fn build_unsat_core_trivial_false(assertions: &Vec<TermId>, named: &Vec<NamedAssertion>, produce: bool) -> (r: Option<
    UnsatCore,
>)
    requires
        assertions@.len() <= u32::MAX,
    ensures
        r is Some <==> produce,
        r matches Some(c) ==> c.indices@ == false_positions(assertions@, assertions@.len() as int) && c.names@ == names_at(
            named@,
            c.indices@,
            c.indices@.len() as int,
        ),
{
    if !produce {
        return None;
    }
    let mut c = UnsatCore::new();
    let mut i: usize = 0;
    while i < assertions.len()
        invariant
            i <= assertions.len(),
            assertions@.len() <= u32::MAX,
            c.indices@ == false_positions(assertions@, i as int),
            c.names@ == names_at(named@, c.indices@, c.indices@.len() as int),
        decreases assertions.len() - i,
    {
        if assertions[i] == FALSE_TERM {
            let ghost before = c.indices@;
            let index: u32 = i as u32;
            c.indices.push(index);
            if let Some(name) = name_at(named, index) {
                c.names.push(name);
            }
            proof {
                lemma_names_prefix(named@, before, c.indices@, before.len() as int);
            }
        }
        i = i + 1;
    }
    Some(c)
}

} // verus!
