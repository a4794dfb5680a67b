//! Weighted CCS: processes whose actions carry weights and whose states carry atomic
//! propositions.
use std::collections::{BTreeMap, BTreeSet};
use vstd::prelude::*;

use crate::ccs::str_eq;
use crate::numeric::Number;

verus! {

/// A process of weighted CCS.
#[derive(Debug)]
pub enum Process<'a> {
    Nil,
    Named(&'a str),
    ActionPrefix { action: WeightedAction<'a>, process: Box<Process<'a>> },
    Restriction { process: Box<Process<'a>>, restriction: BTreeSet<&'a str> },
    ActionRelabelling { process: Box<Process<'a>>, labels: BTreeMap<&'a str, &'a str> },
    PropositionRelabelling { process: Box<Process<'a>>, labels: BTreeMap<&'a str, &'a str> },
    Sum(Box<Process<'a>>, Box<Process<'a>>),
    Compose(Box<Process<'a>>, Box<Process<'a>>),
    AtomicPropositions { propositions: Vec<&'a str>, process: Box<Process<'a>> },
}

/// Two processes are the same: of one shape, over the same actions, names, restricted labels,
/// relabellings and propositions.
pub open spec fn same_process<'a>(a: Process<'a>, b: Process<'a>) -> bool
    decreases a,
{
    match (a, b) {
        (Process::Nil, Process::Nil) => true,
        (Process::Named(x), Process::Named(y)) => x == y,
        (Process::ActionPrefix { action: x, process: p }, Process::ActionPrefix { action: y, process: q }) => x == y
            && same_process(*p, *q),
        (Process::Restriction { process: p, restriction: r }, Process::Restriction { process: q, restriction: t }) => r@ == t@
            && same_process(*p, *q),
        (Process::ActionRelabelling { process: p, labels: l }, Process::ActionRelabelling { process: q, labels: m }) => l@
            == m@ && same_process(*p, *q),
        (Process::PropositionRelabelling { process: p, labels: l }, Process::PropositionRelabelling { process: q, labels: m }) =>
            l@ == m@ && same_process(*p, *q),
        (Process::Sum(p1, p2), Process::Sum(q1, q2)) => same_process(*p1, *q1) && same_process(*p2, *q2),
        (Process::Compose(p1, p2), Process::Compose(q1, q2)) => same_process(*p1, *q1) && same_process(*p2, *q2),
        (Process::AtomicPropositions { propositions: x, process: p }, Process::AtomicPropositions { propositions: y, process: q }) =>
            x@ == y@ && same_process(*p, *q),
        _ => false,
    }
}

/// A copy of a list of names.
fn copy_names<'a>(names: &Vec<&'a str>) -> (r: Vec<&'a str>)
    ensures
        r@ == names@,
{
    let mut r: Vec<&'a str> = Vec::new();
    let mut j: usize = 0;
    while j < names.len()
        invariant
            0 <= j <= names@.len(),
            r@ == names@.take(j as int),
        decreases names@.len() - j,
    {
        r.push(names[j]);
        proof {
            assert(names@.take(j + 1) =~= names@.take(j as int).push(names@[j as int]));
        }
        j = j + 1;
    }
    proof {
        assert(names@.take(names@.len() as int) =~= names@);
    }
    r
}

impl<'a> Clone for Process<'a> {
    fn clone(&self) -> (r: Self)
        ensures
            same_process(*self, r),
        decreases self,
    {
        match self {
            Process::Nil => Process::Nil,
            Process::Named(name) => Process::Named(name),
            Process::ActionPrefix { action, process } => Process::ActionPrefix {
                action: *action,
                process: Box::new((**process).clone()),
            },
            Process::Restriction { process, restriction } => Process::Restriction {
                process: Box::new((**process).clone()),
                restriction: restriction.clone(),
            },
            Process::ActionRelabelling { process, labels } => Process::ActionRelabelling {
                process: Box::new((**process).clone()),
                labels: labels.clone(),
            },
            Process::PropositionRelabelling { process, labels } => Process::PropositionRelabelling {
                process: Box::new((**process).clone()),
                labels: labels.clone(),
            },
            Process::Sum(a, b) => Process::Sum(Box::new((**a).clone()), Box::new((**b).clone())),
            Process::Compose(a, b) => Process::Compose(Box::new((**a).clone()), Box::new((**b).clone())),
            Process::AtomicPropositions { propositions, process } => Process::AtomicPropositions {
                propositions: copy_names(propositions),
                process: Box::new((**process).clone()),
            },
        }
    }
}

/// A named process definition.
#[derive(Clone, Debug)]
pub struct Binding<'a> {
    pub name: &'a str,
    pub process: Process<'a>,
}

/// An action: the silent action, or a label that may be complemented.
#[derive(Clone, Copy, Debug, PartialEq, Eq, Hash, PartialOrd, Ord)]
pub enum Action<'a> {
    Tau,
    Label { name: &'a str, is_complement: bool },
}

/// An action with its weight.
#[derive(Clone, Copy, Debug, PartialEq, Eq, Hash)]
pub struct WeightedAction<'a> {
    pub weight: Number,
    pub action: Action<'a>,
}

/// How many times a multiset holds an element.
pub trait MultiSet<T> {
    /// The number of occurrences of `elem`.
    spec fn occurrences(&self, elem: T) -> nat;

    fn count(&self, elem: T) -> (r: usize)
        ensures
            r == self.occurrences(elem),
    ;
}

/// The number of entries of `s` among the first `n` that hold the characters of `elem`.
pub open spec fn count_str<'a>(s: Seq<&'a str>, elem: &'a str, n: int) -> nat
    decreases n,
{
    if n <= 0 {
        0
    } else if s[n - 1]@ == elem@ {
        count_str(s, elem, n - 1) + 1
    } else {
        count_str(s, elem, n - 1)
    }
}

impl<'a> MultiSet<&'a str> for Vec<&'a str> {
    open spec fn occurrences(&self, elem: &'a str) -> nat {
        count_str(self@, elem, self@.len() as int)
    }

    /// The number of entries that hold the same characters as `elem`.
    fn count(&self, elem: &'a str) -> (r: usize) {
        let mut n: usize = 0;
        let mut j: usize = 0;
        while j < self.len()
            invariant
                0 <= j <= self@.len(),
                n == count_str(self@, elem, j as int),
                n <= j,
            decreases self@.len() - j,
        {
            if str_eq(self[j], elem) {
                n = n + 1;
            }
            j = j + 1;
        }
        n
    }
}

} // verus!
