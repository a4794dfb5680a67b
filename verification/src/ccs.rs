//! Processes and actions of the calculus of communicating systems, and how relabellings compose.
use std::collections::{BTreeMap, BTreeSet};
use vstd::prelude::*;


verus! {

/// A process of CCS.
#[derive(Debug)]
pub enum Process<'a> {
    Nil,
    Named(&'a str),
    ActionPrefix { action: Action<'a>, process: Box<Process<'a>> },
    Restriction { process: Box<Process<'a>>, restriction: BTreeSet<&'a str> },
    Relabelling { process: Box<Process<'a>>, labels: BTreeMap<&'a str, &'a str> },
    Sum(Box<Process<'a>>, Box<Process<'a>>),
    Compose(Box<Process<'a>>, Box<Process<'a>>),
}

/// Two processes are the same: of one shape, over the same actions, names, restricted labels and
/// relabellings.
pub open spec fn same_process<'a>(a: Process<'a>, b: Process<'a>) -> bool
    decreases a,
{
    match (a, b) {
        (Process::Nil, Process::Nil) => true,
        (Process::Named(x), Process::Named(y)) => x == y,
        (Process::ActionPrefix { action: x, process: p }, Process::ActionPrefix { action: y, process: q }) => x == y
            && same_process(*p, *q),
        (Process::Restriction { process: p, restriction: r }, Process::Restriction { process: q, restriction: t }) => r@ == t@
            && same_process(*p, *q),
        (Process::Relabelling { process: p, labels: l }, Process::Relabelling { process: q, labels: m }) => l@ == m@
            && same_process(*p, *q),
        (Process::Sum(p1, p2), Process::Sum(q1, q2)) => same_process(*p1, *q1) && same_process(*p2, *q2),
        (Process::Compose(p1, p2), Process::Compose(q1, q2)) => same_process(*p1, *q1) && same_process(*p2, *q2),
        _ => false,
    }
}

impl<'a> Clone for Process<'a> {
    fn clone(&self) -> (r: Self)
        ensures
            same_process(*self, r),
        decreases self,
    {
        match self {
            Process::Nil => Process::Nil,
            Process::Named(name) => Process::Named(name),
            Process::ActionPrefix { action, process } => Process::ActionPrefix {
                action: *action,
                process: Box::new((**process).clone()),
            },
            Process::Restriction { process, restriction } => Process::Restriction {
                process: Box::new((**process).clone()),
                restriction: restriction.clone(),
            },
            Process::Relabelling { process, labels } => Process::Relabelling {
                process: Box::new((**process).clone()),
                labels: labels.clone(),
            },
            Process::Sum(a, b) => Process::Sum(Box::new((**a).clone()), Box::new((**b).clone())),
            Process::Compose(a, b) => Process::Compose(Box::new((**a).clone()), Box::new((**b).clone())),
        }
    }
}

/// A named process definition.
#[derive(Clone, Debug)]
pub struct Binding<'a> {
    pub name: &'a str,
    pub value: Process<'a>,
}

/// An action: the silent action, or a label that may be complemented.
#[derive(Clone, Copy, Debug, PartialEq, Eq, Hash, PartialOrd, Ord)]
pub enum Action<'a> {
    Tau,
    Label { name: &'a str, is_complement: bool },
}

/// `<str as PartialEq>::eq`: two strings are equal when they hold the same characters.
#[verifier::external_body]
pub(crate) fn str_eq(a: &str, b: &str) -> (r: bool)
    ensures
        r == (a@ == b@),
{
    a == b
}

/// Two actions synchronize: both are labels, with the same name, and exactly one complemented.
pub open spec fn synchronize(a: Action, b: Action) -> bool {
    match (a, b) {
        (Action::Label { name, is_complement }, Action::Label { name: other_name, is_complement: other_is_complement }) =>
            name@ == other_name@ && is_complement != other_is_complement,
        _ => false,
    }
}

impl<'a> Action<'a> {
    pub fn can_syncronize(&self, other: &Action) -> (r: bool)
        ensures
            r == synchronize(*self, *other),
    {
        match (self, other) {
            (Action::Tau, _) | (_, Action::Tau) => false,
            (
                Action::Label { name, is_complement },
                Action::Label { name: other_name, is_complement: other_is_complement },
            ) => str_eq(name, other_name) && *is_complement != *other_is_complement,
        }
    }
}

/// Relabelling by `first` and then by `second`: a label of `second` takes its value there, a label
/// of `first` alone takes the relabelling of its value by `second` where there is one.
pub open spec fn relabelled<'a>(first: Map<&'a str, &'a str>, second: Map<&'a str, &'a str>) -> Map<&'a str, &'a str> {
    Map::new(
        |k: &'a str| first.contains_key(k) || second.contains_key(k),
        |k: &'a str|
            if second.contains_key(k) {
                second[k]
            } else if second.contains_key(first[k]) {
                second[first[k]]
            } else {
                first[k]
            },
    )
}

/// Relabelling by nothing before or after changes nothing.
pub proof fn lemma_relabel_by_nothing<'a>(labels: Map<&'a str, &'a str>)
    ensures
        relabelled(labels, Map::empty()) == labels,
        relabelled(Map::empty(), labels) == labels,
{
    assert(relabelled(labels, Map::empty()) =~= labels);
    assert(relabelled(Map::empty(), labels) =~= labels);
}

/// `first`, with the labels in `done` relabelled by `second` where it can.
pub open spec fn relabelled_on<'a>(first: Map<&'a str, &'a str>, second: Map<&'a str, &'a str>, done: Set<&'a str>) -> Map<&'a str, &'a str> {
    Map::new(
        |k: &'a str| first.contains_key(k),
        |k: &'a str|
            if done.contains(k) && second.contains_key(first[k]) {
                second[first[k]]
            } else {
                first[k]
            },
    )
}

/// The entries of `m` are `entries`, each once.
pub open spec fn lists_labels<'a>(m: Map<&'a str, &'a str>, entries: Seq<(&'a str, &'a str)>) -> bool {
    &&& forall|i: int| 0 <= i < entries.len() ==> m.contains_key((#[trigger] entries[i]).0) && m[entries[i].0] == entries[i].1
    &&& forall|k: &'a str| #[trigger] m.contains_key(k) ==> entries.contains((k, m[k]))
}

/// `BTreeMap::iter`, with each entry copied out: every entry of the map once. (The order of
/// strings is a total order, so the map holds one entry per label and walks each once.)
#[verifier::external_body]
fn label_entries<'a>(m: &BTreeMap<&'a str, &'a str>) -> (r: Vec<(&'a str, &'a str)>)
    ensures
        lists_labels(m@, r@),
{
    m.iter().map(|(k, v)| (*k, *v)).collect()
}

/// `BTreeMap::get`: the label that `k` is relabelled to, where the map has one.
#[verifier::external_body]
fn label_get<'a, 'b>(m: &'b BTreeMap<&'a str, &'a str>, k: &'a str) -> (r: Option<&'b &'a str>)
    ensures
        m@.contains_key(k) ==> r == Some(&m@[k]),
        !m@.contains_key(k) ==> r is None,
{
    m.get(k)
}

/// `BTreeMap::insert`: relabel `k` to `v`, replacing what `k` was relabelled to.
#[verifier::external_body]
fn label_insert<'a>(m: &mut BTreeMap<&'a str, &'a str>, k: &'a str, v: &'a str)
    ensures
        final(m)@ == old(m)@.insert(k, v),
{
    m.insert(k, v);
}

/// The keys of a sequence of entries.
pub open spec fn entry_keys<'a>(entries: Seq<(&'a str, &'a str)>) -> Set<&'a str> {
    entries.map_values(|e: (&'a str, &'a str)| e.0).to_set()
}

/// The relabelling of `labels1` followed by `labels2`.
pub fn relabelling_logic<'a>(labels1: &BTreeMap<&'a str, &'a str>, labels2: &BTreeMap<&'a str, &'a str>) -> (r: BTreeMap<&'a str, &'a str>)
    ensures
        r@ == relabelled(labels1@, labels2@),
{
    let mut new_labels1 = labels1.clone();
    let entries = label_entries(labels1);
    let mut j: usize = 0;
    while j < entries.len()
        invariant
            0 <= j <= entries@.len(),
            lists_labels(labels1@, entries@),
            new_labels1@ == relabelled_on(labels1@, labels2@, entry_keys(entries@.take(j as int))),
        decreases entries@.len() - j,
    {
        let (k, v) = entries[j];
        match label_get(labels2, v) {
            Some(nv) => {
                label_insert(&mut new_labels1, k, *nv);
            },
            None => {},
        }
        proof {
            let e = entries@[j as int];
            assert(entries@.take(j + 1) =~= entries@.take(j as int).push(e));
            assert(entries@.take(j + 1).map_values(|x: (&'a str, &'a str)| x.0) =~= entries@.take(j as int).map_values(
                |x: (&'a str, &'a str)| x.0).push(e.0));
            entries@.take(j as int).map_values(|x: (&'a str, &'a str)| x.0).lemma_push_to_set_commute(e.0);
            assert(new_labels1@ =~= relabelled_on(labels1@, labels2@, entry_keys(entries@.take(j + 1))));
        }
        j = j + 1;
    }
    let ghost base = new_labels1@;
    let entries2 = label_entries(labels2);
    let mut j: usize = 0;
    while j < entries2.len()
        invariant
            0 <= j <= entries2@.len(),
            lists_labels(labels2@, entries2@),
            new_labels1@ == base.union_prefer_right(labels2@.restrict(entry_keys(entries2@.take(j as int)))),
        decreases entries2@.len() - j,
    {
        let (k, v) = entries2[j];
        label_insert(&mut new_labels1, k, v);
        proof {
            let e = entries2@[j as int];
            assert(entries2@.take(j + 1) =~= entries2@.take(j as int).push(e));
            assert(entries2@.take(j + 1).map_values(|x: (&'a str, &'a str)| x.0) =~= entries2@.take(j as int).map_values(
                |x: (&'a str, &'a str)| x.0).push(e.0));
            entries2@.take(j as int).map_values(|x: (&'a str, &'a str)| x.0).lemma_push_to_set_commute(e.0);
            assert(new_labels1@ =~= base.union_prefer_right(labels2@.restrict(entry_keys(entries2@.take(j + 1)))));
        }
        j = j + 1;
    }
    proof {
        assert(entries@.take(entries@.len() as int) =~= entries@);
        assert(entries2@.take(entries2@.len() as int) =~= entries2@);
        assert forall|k: &'a str| #[trigger] labels2@.contains_key(k) implies entry_keys(entries2@).contains(k) by {
            let i = choose|i: int| 0 <= i < entries2@.len() && entries2@[i] == (k, labels2@[k]);
            assert(entries2@.map_values(|x: (&'a str, &'a str)| x.0)[i] == k);
        }
        assert forall|k: &'a str| #[trigger] labels1@.contains_key(k) implies entry_keys(entries@).contains(k) by {
            let i = choose|i: int| 0 <= i < entries@.len() && entries@[i] == (k, labels1@[k]);
            assert(entries@.map_values(|x: (&'a str, &'a str)| x.0)[i] == k);
        }
        assert(labels2@.restrict(entry_keys(entries2@)) =~= labels2@);
        assert(new_labels1@ =~= relabelled(labels1@, labels2@));
    }
    new_labels1
}

} // verus!
