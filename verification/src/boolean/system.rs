//! A Boolean system held in arenas: variables by name, terms shared by shape, and the term that
//! defines each variable.
use std::collections::HashMap;
use std::hash::Hash;
use vstd::prelude::*;
use vstd::std_specs::hash::obeys_key_model;

use crate::arena::{Arena, BiArena, Key, SecondaryArena};
use crate::assigned_value;
use crate::oracle::{lemma_smax_sound, lemma_trivial_sound, maximal_is_top, SMax, TrivialOracle};
use crate::kleene::{least_fixed_point_reachable, after_passes, agree_on, order_transitive, steady_universe, arguments_determine, top_value, assignment_below, at_most, bottom_least, monotone, order_antisymmetric};
use crate::boolean::{same_term, subterms, BoolSystem, BoolTerm};
use crate::extension::TermSystem;
use crate::ordered::strategy::{item_pairs, BinaryHeapStrategy, InitialStrategy, StrategyItem, StrategyWeight};
use crate::set::bitset::{BitSet, BitsetRelation};
use crate::{Arguments, Assignment, Cartesian, Maximal, PairUniverse, SetOps, System, Universe, UnionWith};

verus! {

/// A Boolean system. A term may only refer to terms added before it, so that evaluation ends.
pub struct BoolSystemImpl<V: Key, T: Key, N> {
    names: BiArena<V, N>,
    definitions: SecondaryArena<V, T>,
    terms: Arena<T, BoolTerm<V, T>>,
    locked: bool,
}

/// Every subterm of each term comes before it, and every variable of a term can be held in a set.
pub open spec fn ordered_terms<V: Key, T: Key>(terms: Seq<BoolTerm<V, T>>) -> bool {
    &&& forall|i: int, j: int| 0 <= i < terms.len() && 0 <= j < subterms(terms[i]).len() ==> (#[trigger] subterms(terms[i])[j]).key_index() < i
    &&& forall|i: int| 0 <= i < terms.len() ==> (#[trigger] terms[i] matches BoolTerm::Variable(v) ==> v.key_index() < usize::MAX)
}

/// Every variable of a term is among the first `count` variables.
pub open spec fn named_variables<V: Key, T: Key>(terms: Seq<BoolTerm<V, T>>, count: nat) -> bool {
    forall|i: int| 0 <= i < terms.len() ==> (#[trigger] terms[i] matches BoolTerm::Variable(v) ==> v.key_index() < count)
}

/// The value of the term of `t` among `terms` under an assignment, where a variable without a
/// value is false, and a key without a term is true.
pub open spec fn list_value<V: Key, T: Key>(terms: Seq<BoolTerm<V, T>>, t: T, a: Map<V, bool>) -> bool
    decreases t.key_index() + 1, 0int,
{
    if !ordered_terms(terms) || t.key_index() >= terms.len() {
        true
    } else {
        match terms[t.key_index() as int] {
            BoolTerm::True => true,
            BoolTerm::False => false,
            BoolTerm::Variable(v) => assigned_value(a, v),
            BoolTerm::Or(ks) => list_any(terms, a, ks@.len() as int, t),
            BoolTerm::And(ks) => list_all(terms, a, ks@.len() as int, t),
        }
    }
}

/// Whether one of the first `n` subterms of the term of `parent` is true.
pub open spec fn list_any<V: Key, T: Key>(terms: Seq<BoolTerm<V, T>>, a: Map<V, bool>, n: int, parent: T) -> bool
    decreases parent.key_index(), n,
{
    if !ordered_terms(terms) || parent.key_index() >= terms.len() || n <= 0 || n > subterms(terms[parent.key_index() as int]).len() {
        false
    } else {
        list_any(terms, a, n - 1, parent) || list_value(terms, subterms(terms[parent.key_index() as int])[n - 1], a)
    }
}

/// Whether each of the first `n` subterms of the term of `parent` is true.
pub open spec fn list_all<V: Key, T: Key>(terms: Seq<BoolTerm<V, T>>, a: Map<V, bool>, n: int, parent: T) -> bool
    decreases parent.key_index(), n,
{
    if !ordered_terms(terms) || parent.key_index() >= terms.len() || n <= 0 || n > subterms(terms[parent.key_index() as int]).len() {
        true
    } else {
        list_all(terms, a, n - 1, parent) && list_value(terms, subterms(terms[parent.key_index() as int])[n - 1], a)
    }
}

/// The indices of the variables that occur in the term of `t` among `terms`.
pub open spec fn list_vars<V: Key, T: Key>(terms: Seq<BoolTerm<V, T>>, t: T) -> Set<usize>
    decreases t.key_index() + 1, 0int,
{
    if !ordered_terms(terms) || t.key_index() >= terms.len() {
        Set::empty()
    } else {
        match terms[t.key_index() as int] {
            BoolTerm::Variable(v) => set![v.key_index()],
            BoolTerm::Or(ks) => list_subterm_vars(terms, ks@.len() as int, t),
            BoolTerm::And(ks) => list_subterm_vars(terms, ks@.len() as int, t),
            _ => Set::empty(),
        }
    }
}

/// The indices of the variables that occur in the first `n` subterms of the term of `parent`.
pub open spec fn list_subterm_vars<V: Key, T: Key>(terms: Seq<BoolTerm<V, T>>, n: int, parent: T) -> Set<usize>
    decreases parent.key_index(), n,
{
    if !ordered_terms(terms) || parent.key_index() >= terms.len() || n <= 0 || n > subterms(terms[parent.key_index() as int]).len() {
        Set::empty()
    } else {
        list_subterm_vars(terms, n - 1, parent).union(list_vars(terms, subterms(terms[parent.key_index() as int])[n - 1]))
    }
}

/// A true subterm among the first `m` is among the first `n` for `n` from `m`.
proof fn lemma_any_grows<V: Key, T: Key>(terms: Seq<BoolTerm<V, T>>, a: Map<V, bool>, m: int, n: int, parent: T)
    requires
        0 <= m <= n,
        ordered_terms(terms),
        parent.key_index() < terms.len(),
        n <= subterms(terms[parent.key_index() as int]).len(),
        list_any(terms, a, m, parent),
    ensures
        list_any(terms, a, n, parent),
    decreases n - m,
{
    if m < n {
        lemma_any_grows(terms, a, m, n - 1, parent);
    }
}

/// A false subterm among the first `m` is among the first `n` for `n` from `m`.
proof fn lemma_all_shrinks<V: Key, T: Key>(terms: Seq<BoolTerm<V, T>>, a: Map<V, bool>, m: int, n: int, parent: T)
    requires
        0 <= m <= n,
        ordered_terms(terms),
        parent.key_index() < terms.len(),
        n <= subterms(terms[parent.key_index() as int]).len(),
        !list_all(terms, a, m, parent),
    ensures
        !list_all(terms, a, n, parent),
    decreases n - m,
{
    if m < n {
        lemma_all_shrinks(terms, a, m, n - 1, parent);
    }
}

/// Making more variables true makes no term false.
proof fn lemma_value_monotone<V: Key, T: Key>(terms: Seq<BoolTerm<V, T>>, t: T, lo: Map<V, bool>, hi: Map<V, bool>)
    requires
        forall|k: V| #[trigger] assigned_value(lo, k) ==> assigned_value(hi, k),
        list_value(terms, t, lo),
    ensures
        list_value(terms, t, hi),
    decreases t.key_index() + 1, 0int,
{
    if ordered_terms(terms) && t.key_index() < terms.len() {
        match terms[t.key_index() as int] {
            BoolTerm::Or(ks) => lemma_any_monotone(terms, lo, hi, ks@.len() as int, t),
            BoolTerm::And(ks) => lemma_all_monotone(terms, lo, hi, ks@.len() as int, t),
            _ => {},
        }
    }
}

/// Making more variables true makes none of the first `n` subterms false, where one was true.
proof fn lemma_any_monotone<V: Key, T: Key>(terms: Seq<BoolTerm<V, T>>, lo: Map<V, bool>, hi: Map<V, bool>, n: int, parent: T)
    requires
        forall|k: V| #[trigger] assigned_value(lo, k) ==> assigned_value(hi, k),
        list_any(terms, lo, n, parent),
    ensures
        list_any(terms, hi, n, parent),
    decreases parent.key_index(), n,
{
    if ordered_terms(terms) && parent.key_index() < terms.len() && 0 < n <= subterms(terms[parent.key_index() as int]).len() {
        let sub = subterms(terms[parent.key_index() as int])[n - 1];
        assert(sub.key_index() < parent.key_index());
        if list_any(terms, lo, n - 1, parent) {
            lemma_any_monotone(terms, lo, hi, n - 1, parent);
        } else {
            lemma_value_monotone(terms, sub, lo, hi);
        }
    }
}

/// Making more variables true makes none of the first `n` subterms false, where all were true.
proof fn lemma_all_monotone<V: Key, T: Key>(terms: Seq<BoolTerm<V, T>>, lo: Map<V, bool>, hi: Map<V, bool>, n: int, parent: T)
    requires
        forall|k: V| #[trigger] assigned_value(lo, k) ==> assigned_value(hi, k),
        list_all(terms, lo, n, parent),
    ensures
        list_all(terms, hi, n, parent),
    decreases parent.key_index(), n,
{
    if ordered_terms(terms) && parent.key_index() < terms.len() && 0 < n <= subterms(terms[parent.key_index() as int]).len() {
        let sub = subterms(terms[parent.key_index() as int])[n - 1];
        assert(sub.key_index() < parent.key_index());
        lemma_all_monotone(terms, lo, hi, n - 1, parent);
        lemma_value_monotone(terms, sub, lo, hi);
    }
}

/// Evaluation in a Boolean system is monotone: making more variables true makes no variable
/// false; false is the bottom value and the order is antisymmetric. Local Kleene iteration on a
/// Boolean system therefore gives a value at or below that of every fixed point.
pub proof fn lemma_bool_system_monotone<V: Key + Eq + Hash, T: Key, N>(system: BoolSystemImpl<V, T, N>)
    ensures
        monotone(system),
        bottom_least::<bool>(),
        order_antisymmetric::<bool>(),
{
    assert forall|k: V, lower: Map<V, bool>, upper: Map<V, bool>|
        #![trigger system.evaluation(k, lower), system.evaluation(k, upper)]
        assignment_below(lower, upper) implies at_most(system.evaluation(k, lower), system.evaluation(k, upper)) by {
        assert forall|v: V| #[trigger] assigned_value(lower, v) implies assigned_value(upper, v) by {
            assert(at_most(assigned_value(lower, v), assigned_value(upper, v)));
        }
        if system.definition_map().contains_key(k.key_index()) && system.evaluation(k, lower) {
            lemma_value_monotone(system.term_list(), system.definition_map()[k.key_index()], lower, upper);
        }
    }
}

impl<V: Key, T: Key, N> BoolSystemImpl<V, T, N> {
    /// The terms, by the index of their keys.
    pub closed spec fn term_list(self) -> Seq<BoolTerm<V, T>> {
        self.terms@
    }

    /// The term that defines each variable, by the variable's index.
    pub closed spec fn definition_map(self) -> Map<usize, T> {
        self.definitions@
    }

    /// The names of the variables, by the index of their keys.
    pub closed spec fn name_list(self) -> Seq<N> {
        self.names.values()
    }

    /// The terms are ordered.
    #[verifier::type_invariant]
    pub closed spec fn well_formed(self) -> bool {
        &&& ordered_terms(self.terms@)
        &&& named_variables(self.terms@, self.names.values().len())
        &&& self.names.values().len() <= usize::MAX
    }

    /// The key of each name.
    pub closed spec fn name_keys(self) -> Map<N, V> {
        self.names.key_map()
    }

    /// Whether the system is locked.
    pub closed spec fn is_locked(self) -> bool {
        self.locked
    }

    pub fn new() -> (r: Self)
        ensures
            r.term_list() == Seq::<BoolTerm<V, T>>::empty(),
            r.definition_map() == Map::<usize, T>::empty(),
            r.name_list() == Seq::<N>::empty(),
    {
        BoolSystemImpl { names: BiArena::new(), definitions: SecondaryArena::new(), terms: Arena::new(), locked: false }
    }

    /// The name of a variable.
    pub fn name_of(&self, variable: V) -> (r: &N)
        requires
            variable.key_index() < self.name_list().len(),
        ensures
            *r == self.name_list()[variable.key_index() as int],
    {
        self.names.get_value(variable)
    }

    /// The number of named variables.
    pub fn variable_count(&self) -> (r: usize)
        ensures
            r == self.name_list().len(),
    {
        self.names.len()
    }

    /// Define a variable by a term, returning the term that defined it before, if any.
    pub fn define(&mut self, variable: V, term: T) -> (r: Option<T>)
        requires
            variable.key_index() < usize::MAX,
        ensures
            final(self).definition_map() == old(self).definition_map().insert(variable.key_index(), term),
            final(self).term_list() == old(self).term_list(),
            final(self).name_list() == old(self).name_list(),
    {
        proof {
            use_type_invariant(&*self);
        }
        let mut definitions = SecondaryArena::new();
        std::mem::swap(&mut definitions, &mut self.definitions);
        let r = definitions.insert(variable, term);
        std::mem::swap(&mut definitions, &mut self.definitions);
        r
    }

    /// Each defined variable with the term that defines it, by the variable's index.
    pub fn definitions(&self) -> (r: Vec<(V, T)>)
        ensures
            forall|i: int| 0 <= i < r@.len() ==> self.definition_map().contains_key((#[trigger] r@[i]).0.key_index())
                && self.definition_map()[r@[i].0.key_index()] == r@[i].1,
            forall|i: int, j: int| 0 <= i < j < r@.len() ==> (#[trigger] r@[i]).0.key_index() < (#[trigger] r@[j]).0.key_index(),
            forall|k: usize| #[trigger] self.definition_map().contains_key(k) ==> exists|i: int| 0 <= i < r@.len() && (#[trigger] r@[i]).0.key_index() == k,
    {
        let entries = self.definitions.iter();
        let mut r: Vec<(V, T)> = Vec::new();
        let mut j: usize = 0;
        while j < entries.len()
            invariant
                0 <= j <= entries@.len(),
                r@.len() == j,
                forall|i: int| 0 <= i < j ==> (#[trigger] r@[i]).0 == entries@[i].0 && r@[i].1 == *entries@[i].1,
            decreases entries@.len() - j,
        {
            let (k, t) = entries[j];
            r.push((k, *t));
            j = j + 1;
        }
        proof {
            assert forall|k: usize| #[trigger] self.definition_map().contains_key(k) implies exists|i: int| 0 <= i < r@.len() && (#[trigger] r@[i]).0.key_index() == k by {
                let i = choose|i: int| 0 <= i < entries@.len() && (#[trigger] entries@[i]).0.key_index() == k;
                assert(r@[i].0.key_index() == k);
            }
        }
        r
    }

    /// The term of a key, where there is one.
    pub fn term_at(&self, term_key: T) -> (r: Option<&BoolTerm<V, T>>)
        ensures
            r == if term_key.key_index() < self.term_list().len() {
                Some(&self.term_list()[term_key.key_index() as int])
            } else {
                None
            },
            r matches Some(t) ==> forall|j: int| 0 <= j < subterms(*t).len() ==> (#[trigger] subterms(*t)[j]).key_index() < term_key.key_index(),
            r matches Some(t) ==> (*t matches BoolTerm::Variable(v) ==> v.key_index() < self.name_list().len()),
    {
        proof {
            use_type_invariant(self);
        }
        if term_key.index() < self.terms.len() {
            Some(self.terms.get(term_key))
        } else {
            None
        }
    }
}

impl<V: Key, T: Key, N: Hash + Eq + Clone> BoolSystemImpl<V, T, N> {
    /// The key of the variable of a name, naming a new variable where there is none.
    pub fn variable(&mut self, name: N) -> (r: V)
        requires
            old(self).name_list().len() < usize::MAX,
        ensures
            final(self).term_list() == old(self).term_list(),
            final(self).definition_map() == old(self).definition_map(),
            r.key_index() < final(self).name_list().len(),
            final(self).name_list().len() <= old(self).name_list().len() + 1,
            final(self).name_list().take(old(self).name_list().len() as int) == old(self).name_list(),
            obeys_key_model::<N>() && old(self).name_keys().contains_key(name) && old(self).name_keys()[name].key_index()
                < old(self).name_list().len() ==> r == old(self).name_keys()[name] && final(self).name_list() == old(
                self,
            ).name_list() && final(self).name_keys() == old(self).name_keys(),
            obeys_key_model::<N>() && !old(self).name_keys().contains_key(name) ==> {
                &&& r.key_index() == old(self).name_list().len()
                &&& final(self).name_list().len() == old(self).name_list().len() + 1
                &&& cloned(name, final(self).name_list()[old(self).name_list().len() as int])
                &&& final(self).name_keys() == old(self).name_keys().insert(name, r)
            },
    {
        proof {
            use_type_invariant(&*self);
        }
        let mut terms = Arena::new();
        std::mem::swap(&mut terms, &mut self.terms);
        let mut names = BiArena::new();
        std::mem::swap(&mut names, &mut self.names);
        let r = names.get_or_insert_key(name);
        std::mem::swap(&mut names, &mut self.names);
        proof {
            assert forall|i: int| 0 <= i < terms@.len() implies (#[trigger] terms@[i] matches BoolTerm::Variable(v) ==> v.key_index()
                < self.names.values().len()) by {
                assert(old(self).names.values().len() <= self.names.values().len());
            }
        }
        std::mem::swap(&mut terms, &mut self.terms);
        r
    }
}

/// Whether two lists of keys are the same, by the indices of the keys.
fn same_keys<T: Key>(p: &Vec<T>, q: &Vec<T>) -> (r: bool)
    ensures
        r == (p@ == q@),
{
    if p.len() != q.len() {
        return false;
    }
    let mut j: usize = 0;
    while j < p.len()
        invariant
            0 <= j <= p@.len(),
            p@.len() == q@.len(),
            forall|i: int| 0 <= i < j ==> p@[i] == q@[i],
        decreases p@.len() - j,
    {
        proof {
            T::lemma_key_index(p@[j as int], 0);
            T::lemma_key_index(q@[j as int], 0);
        }
        if p[j].index() != q[j].index() {
            return false;
        }
        j = j + 1;
    }
    proof {
        assert(p@ =~= q@);
    }
    true
}

/// Whether two terms are the same, by the indices of their keys.
fn same_term_exec<V: Key, T: Key>(a: &BoolTerm<V, T>, b: &BoolTerm<V, T>) -> (r: bool)
    ensures
        r == same_term(*a, *b),
{
    match (a, b) {
        (BoolTerm::True, BoolTerm::True) => true,
        (BoolTerm::False, BoolTerm::False) => true,
        (BoolTerm::Variable(x), BoolTerm::Variable(y)) => {
            proof {
                V::lemma_key_index(*x, 0);
                V::lemma_key_index(*y, 0);
            }
            x.index() == y.index()
        },
        (BoolTerm::Or(p), BoolTerm::Or(q)) => same_keys(p, q),
        (BoolTerm::And(p), BoolTerm::And(q)) => same_keys(p, q),
        _ => false,
    }
}

impl<V: Key, T: Key, N> BoolSystemImpl<V, T, N> {
    /// The key of a term, adding the term where none of the same shape is there. Its subterms
    /// must come before it.
    pub fn term(&mut self, term: BoolTerm<V, T>) -> (r: T)
        requires
            old(self).term_list().len() < usize::MAX,
            forall|j: int| 0 <= j < subterms(term).len() ==> (#[trigger] subterms(term)[j]).key_index() < old(self).term_list().len(),
            term matches BoolTerm::Variable(v) ==> v.key_index() < old(self).name_list().len(),
        ensures
            r.key_index() < final(self).term_list().len(),
            same_term(final(self).term_list()[r.key_index() as int], term),
            final(self).term_list().len() <= old(self).term_list().len() + 1,
            final(self).term_list().take(old(self).term_list().len() as int) == old(self).term_list(),
            (forall|j: int| 0 <= j < old(self).term_list().len() ==> !same_term(#[trigger] old(self).term_list()[j], term))
                ==> final(self).term_list().len() == old(self).term_list().len() + 1,
            final(self).definition_map() == old(self).definition_map(),
            final(self).name_list() == old(self).name_list(),
    {
        proof {
            use_type_invariant(&*self);
        }
        let n = self.terms.len();
        let mut i: usize = 0;
        while i < n
            invariant
                0 <= i <= n,
                n == self.terms@.len(),
                self.terms@ == old(self).terms@,
                forall|j: int| 0 <= j < i ==> !same_term(#[trigger] self.terms@[j], term),
            decreases n - i,
        {
            let key = T::from_index(i);
            if same_term_exec(self.terms.get(key), &term) {
                proof {
                    assert(self.terms@.take(n as int) =~= self.terms@);
                }
                return key;
            }
            i = i + 1;
        }
        let mut terms = Arena::new();
        std::mem::swap(&mut terms, &mut self.terms);
        let r = terms.insert(term);
        proof {
            assert(terms@.take(n as int) =~= old(self).terms@);
            assert forall|i: int, j: int| 0 <= i < terms@.len() && 0 <= j < subterms(terms@[i]).len() implies (#[trigger] subterms(
                terms@[i],
            )[j]).key_index() < i by {
                if i < n {
                    assert(terms@[i] == old(self).terms@[i]);
                }
            }
            assert(self.names == old(self).names);
            assert forall|i: int| 0 <= i < terms@.len() implies (#[trigger] terms@[i] matches BoolTerm::Variable(v) ==> v.key_index()
                < usize::MAX && v.key_index() < self.names.values().len()) by {
                if i < n {
                    assert(terms@[i] == old(self).terms@[i]);
                }
            }
        }
        std::mem::swap(&mut terms, &mut self.terms);
        r
    }

    /// The value of a term under an assignment.
    fn eval(&self, t: T, assignment: &HashMap<V, bool>) -> (r: bool)
        where
            V: Eq + Hash,
        ensures
            r == list_value(self.terms@, t, assignment@),
        decreases t.key_index(),
    {
        proof {
            use_type_invariant(self);
        }
        if t.index() >= self.terms.len() {
            return true;
        }
        let term = self.terms.get(t);
        let ghost subs = subterms(*term);
        proof {
            assert forall|j: int| 0 <= j < subs.len() implies (#[trigger] subs[j]).key_index() < t.key_index() by {
                assert(subterms(self.terms@[t.key_index() as int])[j].key_index() < t.key_index());
            }
        }
        match term {
            BoolTerm::True => true,
            BoolTerm::False => false,
            BoolTerm::Variable(v) => assignment.get_assignment(v),
            BoolTerm::Or(ks) => {
                proof {
                    assert(list_value(self.terms@, t, assignment@) == list_any(self.terms@, assignment@, ks@.len() as int, t));
                }
                let mut j: usize = 0;
                while j < ks.len()
                    invariant
                        0 <= j <= ks@.len(),
                        list_value(self.terms@, t, assignment@) == list_any(self.terms@, assignment@, ks@.len() as int, t),
                        ks@ == subs,
                        t.key_index() < self.terms@.len(),
                        ordered_terms(self.terms@),
                        subs == subterms(self.terms@[t.key_index() as int]),
                        forall|i: int| 0 <= i < subs.len() ==> (#[trigger] subs[i]).key_index() < t.key_index(),
                        !list_any(self.terms@, assignment@, j as int, t),
                    decreases ks@.len() - j,
                {
                    let k = ks[j];
                    if self.eval(k, assignment) {
                        proof {
                            assert(list_any(self.terms@, assignment@, j + 1, t));
                            lemma_any_grows(self.terms@, assignment@, j + 1, ks@.len() as int, t);
                        }
                        return true;
                    }
                    proof {
                        assert(!list_any(self.terms@, assignment@, j + 1, t));
                    }
                    j = j + 1;
                }
                false
            },
            BoolTerm::And(ks) => {
                proof {
                    assert(list_value(self.terms@, t, assignment@) == list_all(self.terms@, assignment@, ks@.len() as int, t));
                }
                let mut j: usize = 0;
                while j < ks.len()
                    invariant
                        0 <= j <= ks@.len(),
                        list_value(self.terms@, t, assignment@) == list_all(self.terms@, assignment@, ks@.len() as int, t),
                        ks@ == subs,
                        t.key_index() < self.terms@.len(),
                        ordered_terms(self.terms@),
                        subs == subterms(self.terms@[t.key_index() as int]),
                        forall|i: int| 0 <= i < subs.len() ==> (#[trigger] subs[i]).key_index() < t.key_index(),
                        list_all(self.terms@, assignment@, j as int, t),
                    decreases ks@.len() - j,
                {
                    let k = ks[j];
                    if !self.eval(k, assignment) {
                        proof {
                            assert(!list_all(self.terms@, assignment@, j + 1, t));
                            lemma_all_shrinks(self.terms@, assignment@, j + 1, ks@.len() as int, t);
                        }
                        return false;
                    }
                    proof {
                        assert(list_all(self.terms@, assignment@, j + 1, t));
                    }
                    j = j + 1;
                }
                true
            },
        }
    }
}

impl<V: Key, T: Key, N> BoolSystem<V, T, N> for BoolSystemImpl<V, T, N> where V: Eq + Hash {
    open spec fn term_of(&self, term_key: T) -> BoolTerm<V, T> {
        if ordered_terms(self.term_list()) && term_key.key_index() < self.term_list().len() {
            self.term_list()[term_key.key_index() as int]
        } else {
            BoolTerm::True
        }
    }

    open spec fn height(&self, term_key: T) -> nat {
        term_key.key_index() as nat
    }

    open spec fn value_of(&self, term_key: T, assignment: Map<V, bool>) -> bool {
        list_value(self.term_list(), term_key, assignment)
    }

    proof fn lemma_subterms_lower(&self, term_key: T) {
    }

    fn get_term(&self, term_key: T) -> (r: BoolTerm<V, T>) {
        proof {
            use_type_invariant(self);
        }
        if term_key.index() < self.terms.len() {
            self.terms.get(term_key).clone()
        } else {
            BoolTerm::True
        }
    }

    fn evaluate_term(&self, term_key: T, assignment: &HashMap<V, bool>) -> (r: bool) {
        self.eval(term_key, assignment)
    }
}

impl<V: Key + Eq + Hash, T: Key, N> System<V, bool> for BoolSystemImpl<V, T, N> {
    /// The value of the term that defines the variable; false for a variable without one.
    open spec fn evaluation(&self, key: V, assignment: Map<V, bool>) -> bool {
        if self.definition_map().contains_key(key.key_index()) {
            list_value(self.term_list(), self.definition_map()[key.key_index()], assignment)
        } else {
            false
        }
    }

    fn evaluate(&self, key: V, assignment: &HashMap<V, bool>) -> (r: bool) {
        match self.definitions.get(key) {
            Some(t) => self.eval(*t, assignment),
            None => false,
        }
    }

    /// The empty assignment: every variable at the bottom value.
    fn bottom_assignment(&self) -> (r: HashMap<V, bool>)
        ensures
            r@ == Map::<V, bool>::empty(),
    {
        HashMap::new()
    }

    /// The same system, locked or not.
    closed spec fn with_lock(&self, locked: bool) -> Self {
        BoolSystemImpl { names: self.names, definitions: self.definitions, terms: self.terms, locked }
    }

    /// Lock the system; its variables, terms and definitions stay as they are.
    fn lock(&mut self)
        ensures
            final(self).is_locked(),
            final(self).term_list() == old(self).term_list(),
            final(self).definition_map() == old(self).definition_map(),
            final(self).name_list() == old(self).name_list(),
            final(self).name_keys() == old(self).name_keys(),
    {
        proof {
            use_type_invariant(&*self);
        }
        self.locked = true;
    }

    /// Unlock the system; its variables, terms and definitions stay as they are.
    fn unlock(&mut self)
        ensures
            !final(self).is_locked(),
            final(self).term_list() == old(self).term_list(),
            final(self).definition_map() == old(self).definition_map(),
            final(self).name_list() == old(self).name_list(),
            final(self).name_keys() == old(self).name_keys(),
    {
        proof {
            use_type_invariant(&*self);
        }
        self.locked = false;
    }
}

impl<V: Key + Eq + Hash, T: Key, N> TermSystem<V, bool, T> for BoolSystemImpl<V, T, N> {
    /// The term that defines the variable; the first key for a variable without one.
    open spec fn definition_of(&self, variable: V) -> T {
        if self.definition_map().contains_key(variable.key_index()) {
            self.definition_map()[variable.key_index()]
        } else {
            T::key_of(0)
        }
    }

    fn definition(&self, variable: V) -> (r: T) {
        match self.definitions.get(variable) {
            Some(t) => *t,
            None => T::from_index(0),
        }
    }
}

impl<V: Key, T: Key, N> BoolSystemImpl<V, T, N> {
    /// The variables that occur in a term, through its subterms.
    pub fn term_arguments(&self, term_key: T) -> (r: BitSet<V>)
        ensures
            r@ == list_vars(self.term_list(), term_key),
        decreases term_key.key_index(),
    {
        proof {
            use_type_invariant(self);
        }
        if term_key.index() >= self.terms.len() {
            return BitSet::new();
        }
        let term = self.terms.get(term_key);
        let ghost subs = subterms(*term);
        proof {
            assert forall|j: int| 0 <= j < subs.len() implies (#[trigger] subs[j]).key_index() < term_key.key_index() by {
                assert(subterms(self.terms@[term_key.key_index() as int])[j].key_index() < term_key.key_index());
            }
        }
        match term {
            BoolTerm::True => BitSet::new(),
            BoolTerm::False => BitSet::new(),
            BoolTerm::Variable(v) => {
                let mut set = BitSet::new();
                set.insert(*v);
                proof {
                    assert(set@ =~= set![v.key_index()]);
                }
                set
            },
            BoolTerm::Or(ks) => self.subterm_arguments(term_key, ks),
            BoolTerm::And(ks) => self.subterm_arguments(term_key, ks),
        }
    }

    /// The variables that occur in the subterms `ks` of the term of `term_key`.
    fn subterm_arguments(&self, term_key: T, ks: &Vec<T>) -> (r: BitSet<V>)
        requires
            ordered_terms(self.terms@),
            term_key.key_index() < self.terms@.len(),
            ks@ == subterms(self.terms@[term_key.key_index() as int]),
            list_vars(self.terms@, term_key) == list_subterm_vars(self.terms@, ks@.len() as int, term_key),
        ensures
            r@ == list_vars(self.terms@, term_key),
        decreases term_key.key_index(), 0nat,
    {
        let mut acc = BitSet::new();
        let mut j: usize = 0;
        while j < ks.len()
            invariant
                0 <= j <= ks@.len(),
                ordered_terms(self.terms@),
                term_key.key_index() < self.terms@.len(),
                ks@ == subterms(self.terms@[term_key.key_index() as int]),
                acc@ == list_subterm_vars(self.terms@, j as int, term_key),
            decreases ks@.len() - j,
        {
            let k = ks[j];
            proof {
                assert(subterms(self.terms@[term_key.key_index() as int])[j as int].key_index() < term_key.key_index());
            }
            let sub = self.term_arguments(k);
            acc.union_with(sub);
            j = j + 1;
        }
        acc
    }
}

impl<V: Key + Eq + Hash, T: Key, N> Arguments<V, BitSet<V>> for BoolSystemImpl<V, T, N> {
    /// The variables of the term that defines the variable; none for a variable without one.
    closed spec fn argument_set(&self, key: V) -> Set<usize> {
        self.argument_indices(key)
    }

    fn arguments(&self, key: V) -> (r: BitSet<V>) {
        let r = match self.definitions.get(key) {
            Some(t) => self.term_arguments(*t),
            None => BitSet::new(),
        };
        proof {
            assert(r@ == self.argument_indices(key));
        }
        r
    }
}

impl<V: Key, T: Key, N> BoolSystemImpl<V, T, N> {
    /// The indices of the variables of the term that defines a variable.
    pub open spec fn argument_indices(self, key: V) -> Set<usize> {
        if self.definition_map().contains_key(key.key_index()) {
            list_vars(self.term_list(), self.definition_map()[key.key_index()])
        } else {
            Set::empty()
        }
    }

    /// The indices of the named variables.
    pub open spec fn variable_indices(self) -> Set<usize> {
        Set::new(|i: usize| i < self.name_list().len())
    }
}

impl<V: Key, T: Key, N> Universe<BitSet<V>> for BoolSystemImpl<V, T, N> {
    /// Every named variable.
    closed spec fn universe_set(&self) -> Set<usize> {
        self.variable_indices()
    }

    fn universe(&self) -> (r: BitSet<V>) {
        let r = BitSet::full(self.names.len());
        proof {
            assert(r@ == self.variable_indices());
        }
        r
    }
}

impl<V: Key, T: Key, N> PairUniverse<BitsetRelation<V, V>> for BoolSystemImpl<V, T, N> {
    /// Every pair of named variables.
    closed spec fn pair_universe_set(&self) -> Set<(usize, usize)> {
        Set::new(|p: (usize, usize)| self.variable_indices().contains(p.0) && self.variable_indices().contains(p.1))
    }

    fn pair_universe(&self) -> (r: BitsetRelation<V, V>) {
        let all: BitSet<V> = BitSet::full(self.names.len());
        let r = all.cartesian(&all);
        proof {
            assert(r@ =~= Set::new(|p: (usize, usize)| self.variable_indices().contains(p.0) && self.variable_indices().contains(p.1)));
        }
        r
    }
}

/// The text of the term of `t` among `terms`, with `names` for the variables.
pub open spec fn term_text<V: Key, T: Key>(terms: Seq<BoolTerm<V, T>>, names: Seq<Seq<char>>, t: T) -> Seq<char>
    decreases t.key_index() + 1, 0int,
{
    if t.key_index() >= terms.len() {
        Seq::empty()
    } else {
        match terms[t.key_index() as int] {
            BoolTerm::True => seq!['t', 't'],
            BoolTerm::False => seq!['f', 'f'],
            BoolTerm::Variable(v) => if v.key_index() < names.len() {
                names[v.key_index() as int]
            } else {
                Seq::empty()
            },
            BoolTerm::Or(ks) => seq!['o', 'r', '('] + keys_text(terms, names, ks@, t.key_index() as int) + seq![')'],
            BoolTerm::And(ks) => seq!['a', 'n', 'd', '('] + keys_text(terms, names, ks@, t.key_index() as int) + seq![')'],
        }
    }
}

/// The texts of the terms of `ks` below `bound`, separated by commas.
pub open spec fn keys_text<V: Key, T: Key>(terms: Seq<BoolTerm<V, T>>, names: Seq<Seq<char>>, ks: Seq<T>, bound: int) -> Seq<char>
    decreases bound, ks.len(),
{
    if ks.len() == 0 {
        Seq::empty()
    } else {
        let last = if ks.last().key_index() < bound {
            term_text(terms, names, ks.last())
        } else {
            Seq::empty()
        };
        if ks.len() == 1 {
            last
        } else {
            keys_text(terms, names, ks.drop_last(), bound) + seq![',', ' '] + last
        }
    }
}

/// The text of a term whose subterms are below `bound`.
pub open spec fn shape_text<V: Key, T: Key>(terms: Seq<BoolTerm<V, T>>, names: Seq<Seq<char>>, term: BoolTerm<V, T>, bound: int) -> Seq<char> {
    match term {
        BoolTerm::True => seq!['t', 't'],
        BoolTerm::False => seq!['f', 'f'],
        BoolTerm::Variable(v) => if v.key_index() < names.len() {
            names[v.key_index() as int]
        } else {
            Seq::empty()
        },
        BoolTerm::Or(ks) => seq!['o', 'r', '('] + keys_text(terms, names, ks@, bound) + seq![')'],
        BoolTerm::And(ks) => seq!['a', 'n', 'd', '('] + keys_text(terms, names, ks@, bound) + seq![')'],
    }
}

/// The texts of the names of a system.
pub open spec fn name_texts(names: Seq<&str>) -> Seq<Seq<char>> {
    names.map_values(|n: &str| n@)
}

impl<'a, V: Key, T: Key> BoolSystemImpl<V, T, &'a str> {
    /// The text of a term whose subterms are below `bound`.
    fn shape_to_string(&self, term: &BoolTerm<V, T>, bound: usize) -> (r: String)
        requires
            bound <= self.terms@.len(),
            forall|j: int| 0 <= j < subterms(*term).len() ==> (#[trigger] subterms(*term)[j]).key_index() < bound,
            term matches BoolTerm::Variable(v) ==> v.key_index() < self.names.values().len(),
        ensures
            r@ == shape_text(self.terms@, name_texts(self.names.values()), *term, bound as int),
        decreases bound, 1nat,
    {
        let mut text: String;
        match term {
            BoolTerm::True => {
                text = String::from_str("tt");
                proof {
                    reveal_strlit("tt");
                }
            },
            BoolTerm::False => {
                text = String::from_str("ff");
                proof {
                    reveal_strlit("ff");
                }
            },
            BoolTerm::Variable(v) => {
                text = String::from_str(*self.names.get_value(*v));
            },
            BoolTerm::Or(ks) => {
                text = String::from_str("or(");
                proof {
                    assert forall|j: int| 0 <= j < ks@.len() implies (#[trigger] ks@[j]).key_index() < bound by {
                        assert(subterms(*term)[j] == ks@[j]);
                    }
                }
                let inner = self.keys_to_string(ks, bound);
                text.append(inner.as_str());
                text.append(")");
                proof {
                    reveal_strlit("or(");
                    reveal_strlit(")");
                }
            },
            BoolTerm::And(ks) => {
                text = String::from_str("and(");
                proof {
                    assert forall|j: int| 0 <= j < ks@.len() implies (#[trigger] ks@[j]).key_index() < bound by {
                        assert(subterms(*term)[j] == ks@[j]);
                    }
                }
                let inner = self.keys_to_string(ks, bound);
                text.append(inner.as_str());
                text.append(")");
                proof {
                    reveal_strlit("and(");
                    reveal_strlit(")");
                }
            },
        }
        text
    }

    /// The texts of the terms of `ks`, separated by commas.
    fn keys_to_string(&self, ks: &Vec<T>, bound: usize) -> (r: String)
        requires
            bound <= self.terms@.len(),
            forall|j: int| 0 <= j < ks@.len() ==> (#[trigger] ks@[j]).key_index() < bound,
        ensures
            r@ == keys_text(self.terms@, name_texts(self.names.values()), ks@, bound as int),
        decreases bound, 0nat,
    {
        proof {
            use_type_invariant(self);
        }
        let ghost names = name_texts(self.names.values());
        let mut text = String::new();
        let mut j: usize = 0;
        while j < ks.len()
            invariant
                0 <= j <= ks@.len(),
                bound <= self.terms@.len(),
                names == name_texts(self.names.values()),
                ordered_terms(self.terms@),
                named_variables(self.terms@, self.names.values().len()),
                forall|i: int| 0 <= i < ks@.len() ==> (#[trigger] ks@[i]).key_index() < bound,
                text@ == keys_text(self.terms@, names, ks@.take(j as int), bound as int),
            decreases ks@.len() - j,
        {
            let k = ks[j];
            let ki = k.index();
            proof {
                assert(ks@[j as int].key_index() < bound);
                assert forall|i: int| 0 <= i < subterms(self.terms@[ki as int]).len() implies (#[trigger] subterms(self.terms@[ki as int])[i]).key_index() < ki by {
                }
            }
            let part = self.shape_to_string(self.terms.get(k), ki);
            proof {
                assert(part@ == term_text(self.terms@, names, k));
                assert(ks@.take(j + 1).drop_last() =~= ks@.take(j as int));
                assert(ks@.take(j + 1).last() == k);
            }
            if j > 0 {
                text.append(", ");
                proof {
                    reveal_strlit(", ");
                }
            }
            text.append(part.as_str());
            j = j + 1;
        }
        proof {
            assert(ks@.take(ks@.len() as int) =~= ks@);
        }
        text
    }
}

impl<V: Key, T: Key> BoolTerm<V, T> {
    /// The term as text: `tt`, `ff`, the name of a variable, or `or(..)` and `and(..)` over the
    /// texts of the subterms, separated by commas.
    pub fn to_string<'a>(&self, sys: &BoolSystemImpl<V, T, &'a str>) -> (r: String)
        requires
            forall|j: int| 0 <= j < subterms(*self).len() ==> (#[trigger] subterms(*self)[j]).key_index() < sys.term_list().len(),
            *self matches BoolTerm::Variable(v) ==> v.key_index() < sys.name_list().len(),
        ensures
            r@ == shape_text(sys.term_list(), name_texts(sys.name_list()), *self, sys.term_list().len() as int),
    {
        let bound = sys.terms.len();
        sys.shape_to_string(self, bound)
    }
}

/// `s` holds every pair of the first `n` keys once, each infinitely far.
pub open spec fn all_pairs_infinite<V: Key>(s: Seq<(StrategyWeight, (V, V))>, n: usize) -> bool {
    &&& forall|k: int| 0 <= k < s.len() ==> (#[trigger] s[k]).0 == StrategyWeight::Infinity && s[k].1.0.key_index() < n
        && s[k].1.1.key_index() < n
    &&& forall|a: usize, b: usize| a < n && b < n ==> #[trigger] s.contains((StrategyWeight::Infinity, (V::key_of(a), V::key_of(b))))
    &&& s.no_duplicates()
}

impl<V: Key + Eq + Hash, T: Key, N> InitialStrategy<V, bool, BinaryHeapStrategy<(V, V)>> for BoolSystemImpl<V, T, N> where (V, V): Copy {
    /// Every pair of named variables, infinitely far.
    fn get_initial_strategy(&self) -> (r: BinaryHeapStrategy<(V, V)>)
        ensures
            all_pairs_infinite(r@, self.name_list().len() as usize),
    {
        let n = self.names.len();
        let mut items: Vec<StrategyItem<(V, V)>> = Vec::new();
        let ghost mut pairs: Seq<(StrategyWeight, (V, V))> = Seq::empty();
        let mut i: usize = 0;
        while i < n
            invariant
                0 <= i <= n,
                pairs == item_pairs(items@),
                forall|k: int| 0 <= k < pairs.len() ==> (#[trigger] pairs[k]).0 == StrategyWeight::Infinity && pairs[k].1.0.key_index() < i
                    && pairs[k].1.1.key_index() < n,
                forall|a: usize, b: usize| a < i && b < n ==> #[trigger] pairs.contains((StrategyWeight::Infinity, (V::key_of(a), V::key_of(b)))),
                pairs.no_duplicates(),
            decreases n - i,
        {
            let mut j: usize = 0;
            while j < n
                invariant
                    0 <= i < n,
                    0 <= j <= n,
                    pairs == item_pairs(items@),
                    forall|k: int| 0 <= k < pairs.len() ==> (#[trigger] pairs[k]).0 == StrategyWeight::Infinity && (pairs[k].1.0.key_index() < i
                        || (pairs[k].1.0.key_index() == i && pairs[k].1.1.key_index() < j)) && pairs[k].1.1.key_index() < n,
                    forall|a: usize, b: usize| (a < i && b < n) || (a == i && b < j) ==> #[trigger] pairs.contains(
                        (StrategyWeight::Infinity, (V::key_of(a), V::key_of(b))),
                    ),
                    pairs.no_duplicates(),
                decreases n - j,
            {
                let x = V::from_index(i);
                let y = V::from_index(j);
                let item = (StrategyWeight::Infinity, (x, y));
                proof {
                    assert(!pairs.contains(item)) by {
                        if pairs.contains(item) {
                            let k = choose|k: int| 0 <= k < pairs.len() && pairs[k] == item;
                            assert(pairs[k].1.0.key_index() == i && pairs[k].1.1.key_index() == j);
                        }
                    }
                }
                items.push(StrategyItem(StrategyWeight::Infinity, (x, y)));
                proof {
                    let old_pairs = pairs;
                    pairs = pairs.push(item);
                    assert(pairs =~= item_pairs(items@));
                    assert forall|a: usize, b: usize| (a < i && b < n) || (a == i && b < j + 1) implies #[trigger] pairs.contains(
                        (StrategyWeight::Infinity, (V::key_of(a), V::key_of(b))),
                    ) by {
                        if a == i && b == j {
                            assert(pairs[pairs.len() - 1] == item);
                        } else {
                            assert(old_pairs.contains((StrategyWeight::Infinity, (V::key_of(a), V::key_of(b)))));
                            let k = choose|k: int| 0 <= k < old_pairs.len() && old_pairs[k] == (StrategyWeight::Infinity, (V::key_of(a), V::key_of(b)));
                            assert(pairs[k] == old_pairs[k]);
                        }
                    }
                    assert forall|p: int, q: int| 0 <= p < q < pairs.len() implies pairs[p] != pairs[q] by {
                        if q == pairs.len() - 1 {
                            if pairs[p] == item {
                                assert(old_pairs[p] == item);
                            }
                        }
                    }
                }
                j = j + 1;
            }
            i = i + 1;
        }
        let r = BinaryHeapStrategy::from_items(items);
        proof {
            V::lemma_key_index(V::key_of(0), 0);
        }
        r
    }
}

/// After passes of an oracle, each made locked and followed by unlocking, the system is unlocked,
/// with its variables, terms and definitions as they were.
pub proof fn lemma_after_passes_unlocked<V: Key + Eq + Hash, T: Key, N>(system: BoolSystemImpl<V, T, N>, n: nat)
    ensures
        n > 0 ==> !after_passes::<V, bool, BoolSystemImpl<V, T, N>>(system, n).is_locked(),
        after_passes::<V, bool, BoolSystemImpl<V, T, N>>(system, n).term_list() == system.term_list(),
        after_passes::<V, bool, BoolSystemImpl<V, T, N>>(system, n).definition_map() == system.definition_map(),
        after_passes::<V, bool, BoolSystemImpl<V, T, N>>(system, n).name_list() == system.name_list(),
    decreases n,
{
    if n > 0 {
        lemma_after_passes_unlocked(system, (n - 1) as nat);
    }
}

/// Two assignments that agree on the variables of a term give it one value.
proof fn lemma_value_local<V: Key, T: Key>(terms: Seq<BoolTerm<V, T>>, t: T, a: Map<V, bool>, b: Map<V, bool>)
    requires
        agree_on(a, b, list_vars(terms, t)),
    ensures
        list_value(terms, t, a) == list_value(terms, t, b),
    decreases t.key_index() + 1, 0int,
{
    if ordered_terms(terms) && t.key_index() < terms.len() {
        match terms[t.key_index() as int] {
            BoolTerm::Variable(v) => {
                V::lemma_key_index(v, 0);
                assert(list_vars(terms, t).contains(v.key_index()));
            },
            BoolTerm::Or(ks) => lemma_any_local(terms, a, b, ks@.len() as int, t),
            BoolTerm::And(ks) => lemma_all_local(terms, a, b, ks@.len() as int, t),
            _ => {},
        }
    }
}

/// Two assignments that agree on the variables of the first `n` subterms agree on whether one of
/// them is true.
proof fn lemma_any_local<V: Key, T: Key>(terms: Seq<BoolTerm<V, T>>, a: Map<V, bool>, b: Map<V, bool>, n: int, parent: T)
    requires
        agree_on(a, b, list_subterm_vars(terms, n, parent)),
    ensures
        list_any(terms, a, n, parent) == list_any(terms, b, n, parent),
    decreases parent.key_index(), n,
{
    if ordered_terms(terms) && parent.key_index() < terms.len() && 0 < n <= subterms(terms[parent.key_index() as int]).len() {
        let sub = subterms(terms[parent.key_index() as int])[n - 1];
        assert(sub.key_index() < parent.key_index());
        assert(agree_on(a, b, list_subterm_vars(terms, n - 1, parent))) by {
            assert forall|j: usize| #[trigger] list_subterm_vars(terms, n - 1, parent).contains(j) implies assigned_value(a, V::key_of(j))
                == assigned_value(b, V::key_of(j)) by {
                assert(list_subterm_vars(terms, n, parent).contains(j));
            }
        }
        assert(agree_on(a, b, list_vars(terms, sub))) by {
            assert forall|j: usize| #[trigger] list_vars(terms, sub).contains(j) implies assigned_value(a, V::key_of(j)) == assigned_value(
                b,
                V::key_of(j),
            ) by {
                assert(list_subterm_vars(terms, n, parent).contains(j));
            }
        }
        lemma_any_local(terms, a, b, n - 1, parent);
        lemma_value_local(terms, sub, a, b);
    }
}

/// Two assignments that agree on the variables of the first `n` subterms agree on whether each of
/// them is true.
proof fn lemma_all_local<V: Key, T: Key>(terms: Seq<BoolTerm<V, T>>, a: Map<V, bool>, b: Map<V, bool>, n: int, parent: T)
    requires
        agree_on(a, b, list_subterm_vars(terms, n, parent)),
    ensures
        list_all(terms, a, n, parent) == list_all(terms, b, n, parent),
    decreases parent.key_index(), n,
{
    if ordered_terms(terms) && parent.key_index() < terms.len() && 0 < n <= subterms(terms[parent.key_index() as int]).len() {
        let sub = subterms(terms[parent.key_index() as int])[n - 1];
        assert(sub.key_index() < parent.key_index());
        assert(agree_on(a, b, list_subterm_vars(terms, n - 1, parent))) by {
            assert forall|j: usize| #[trigger] list_subterm_vars(terms, n - 1, parent).contains(j) implies assigned_value(a, V::key_of(j))
                == assigned_value(b, V::key_of(j)) by {
                assert(list_subterm_vars(terms, n, parent).contains(j));
            }
        }
        assert(agree_on(a, b, list_vars(terms, sub))) by {
            assert forall|j: usize| #[trigger] list_vars(terms, sub).contains(j) implies assigned_value(a, V::key_of(j)) == assigned_value(
                b,
                V::key_of(j),
            ) by {
                assert(list_subterm_vars(terms, n, parent).contains(j));
            }
        }
        lemma_all_local(terms, a, b, n - 1, parent);
        lemma_value_local(terms, sub, a, b);
    }
}

/// The variables of a term are named where every variable term is.
proof fn lemma_vars_named<V: Key, T: Key>(terms: Seq<BoolTerm<V, T>>, t: T, count: nat)
    requires
        named_variables(terms, count),
    ensures
        forall|i: usize| #[trigger] list_vars(terms, t).contains(i) ==> i < count,
    decreases t.key_index() + 1, 0int,
{
    if ordered_terms(terms) && t.key_index() < terms.len() {
        let term = terms[t.key_index() as int];
        match term {
            BoolTerm::Variable(v) => {
                assert(term matches BoolTerm::Variable(w) ==> w.key_index() < count);
                assert(list_vars(terms, t) == set![v.key_index()]);
            },
            BoolTerm::Or(ks) => {
                lemma_subterm_vars_named(terms, ks@.len() as int, t, count);
                assert(list_vars(terms, t) == list_subterm_vars(terms, ks@.len() as int, t));
            },
            BoolTerm::And(ks) => {
                lemma_subterm_vars_named(terms, ks@.len() as int, t, count);
                assert(list_vars(terms, t) == list_subterm_vars(terms, ks@.len() as int, t));
            },
            _ => {
                assert(list_vars(terms, t) == Set::<usize>::empty());
            },
        }
    }
}

/// The variables of the first `n` subterms of a term are named where every variable term is.
proof fn lemma_subterm_vars_named<V: Key, T: Key>(terms: Seq<BoolTerm<V, T>>, n: int, parent: T, count: nat)
    requires
        named_variables(terms, count),
    ensures
        forall|i: usize| #[trigger] list_subterm_vars(terms, n, parent).contains(i) ==> i < count,
    decreases parent.key_index(), n,
{
    if ordered_terms(terms) && parent.key_index() < terms.len() && 0 < n <= subterms(terms[parent.key_index() as int]).len() {
        let sub = subterms(terms[parent.key_index() as int])[n - 1];
        assert(sub.key_index() < parent.key_index());
        lemma_subterm_vars_named(terms, n - 1, parent, count);
        lemma_vars_named(terms, sub, count);
        assert(list_subterm_vars(terms, n, parent) == list_subterm_vars(terms, n - 1, parent).union(list_vars(terms, sub)));
        assert forall|i: usize| #[trigger] list_subterm_vars(terms, n, parent).contains(i) implies i < count by {
            if list_subterm_vars(terms, n - 1, parent).contains(i) {
            } else {
                assert(list_vars(terms, sub).contains(i));
            }
        }
    }
}

/// A well-formed Boolean system meets what local Kleene iteration needs of a system to reach the
/// least fixed point: the order of truth values is transitive and true is greatest; each variable
/// evaluates to what the values of its arguments make it; the passes of a run leave its variables,
/// their arguments, its pairs and how each variable evaluates as they are, locked or not; and the
/// arguments are variables of the system.
pub proof fn lemma_bool_system_ready<V: Key + Eq + Hash, T: Key, N>(system: BoolSystemImpl<V, T, N>)
    requires
        system.well_formed(),
    ensures
        order_transitive::<bool>(),
        maximal_is_top::<bool>(),
        arguments_determine(system),
        steady_universe(system),
        forall|n: nat, p: (usize, usize)|
            system.universe_set().contains(p.0) && system.universe_set().contains(p.1) ==> #[trigger] after_passes(
                system,
                n,
            ).with_lock(true).pair_universe_set().contains(p),
        forall|n: nat| #[trigger] after_passes(system, n).with_lock(true).universe_set() == system.universe_set(),
        forall|n: nat, k: V, a: Map<V, bool>|
            #[trigger] after_passes(system, n).with_lock(true).evaluation(k, a) == system.evaluation(k, a),
{
    assert forall|x: bool| #[trigger] x.maximal() implies top_value(x) by {}
    assert forall|n: nat| #[trigger] after_passes(system, n).with_lock(true).universe_set() == system.universe_set() by {
        lemma_after_passes_unlocked(system, n);
    }
    assert forall|n: nat, k: V, a: Map<V, bool>|
        #[trigger] after_passes(system, n).with_lock(true).evaluation(k, a) == system.evaluation(k, a) by {
        lemma_after_passes_unlocked(system, n);
    }
    assert forall|k: V, a: Map<V, bool>, b: Map<V, bool>|
        #![trigger system.evaluation(k, a), system.evaluation(k, b)]
        agree_on(a, b, system.argument_set(k)) implies system.evaluation(k, a) == system.evaluation(k, b) by {
        if system.definition_map().contains_key(k.key_index()) {
            lemma_value_local(system.term_list(), system.definition_map()[k.key_index()], a, b);
        }
    }
    assert forall|n: nat| #[trigger] after_passes(system, n).universe_set() == system.universe_set() by {
        lemma_after_passes_unlocked(system, n);
    }
    assert forall|n: nat, k: V| #[trigger] after_passes(system, n).argument_set(k) == system.argument_set(k) by {
        lemma_after_passes_unlocked(system, n);
    }
    assert forall|k: V| #[trigger] system.argument_set(k).subset_of(system.universe_set()) by {
        if system.definition_map().contains_key(k.key_index()) {
            lemma_vars_named(system.term_list(), system.definition_map()[k.key_index()], system.name_list().len());
        }
    }
    assert forall|n: nat, p: (usize, usize)|
        system.universe_set().contains(p.0) && system.universe_set().contains(p.1) implies #[trigger] after_passes(
        system,
        n,
    ).with_lock(true).pair_universe_set().contains(p) by {
        lemma_after_passes_unlocked(system, n);
    }
}

/// Local Kleene iteration on a well-formed Boolean system, for a target among its variables, gives
/// the value of the least fixed point with the maximal oracle and with the trivial oracle (and,
/// by the laws of composition, with any `then` or `and` of the two).
pub proof fn lemma_bool_least_fixed_point_reachable<V: Key + Eq + Hash, T: Key, N>(
    system: BoolSystemImpl<V, T, N>,
    smax: SMax<BitsetRelation<V, V>>,
    trivial: TrivialOracle<BitsetRelation<V, V>>,
    t: usize,
)
    requires
        system.well_formed(),
        system.universe_set().contains(t),
    ensures
        least_fixed_point_reachable(smax, system, t),
        least_fixed_point_reachable(trivial, system, t),
{
    lemma_bool_system_monotone(system);
    lemma_bool_system_ready(system);
    lemma_smax_sound(smax, system);
    lemma_trivial_sound(trivial, system);
}

} // verus!
