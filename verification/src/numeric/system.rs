//! Numeric systems of equations: terms over numbers with infinity, held in arenas.
use std::collections::HashMap;
use std::hash::Hash;
use vstd::prelude::*;
use vstd::std_specs::hash::obeys_key_model;

use crate::arena::{Arena, BiArena, Key, SecondaryArena};
use crate::boolean::system::name_texts;
use crate::extension::TermSystem;
use crate::kleene::{after_passes, assignment_below, at_most, bottom_greatest, monotone, order_antisymmetric};
use crate::numeric::{number_lt, Number};
use crate::set::bitset::{BitSet, BitsetRelation};
use crate::{assigned_value, seq_views, DependencyGraphSystem, Hyperedges, Arguments, Assignment, Cartesian, PairUniverse, SetOps, System, UnionWith, Universe, Value, Visited};

verus! {

/// A term of a numeric system. The keys of a minimum or a maximum form a set: they are held in
/// increasing order of their indices.
#[derive(Debug)]
pub enum NumericTerm<V, T> {
    Const(Number),
    Var(V),
    Add(T, T),
    Mult(T, T),
    Min(Vec<T>),
    Max(Vec<T>),
    Bound { bound: Number, term: T },
}

/// The subterms of a term, in order.
pub open spec fn num_subterms<V, T>(t: NumericTerm<V, T>) -> Seq<T> {
    match t {
        NumericTerm::Add(l, r) => seq![l, r],
        NumericTerm::Mult(l, r) => seq![l, r],
        NumericTerm::Min(ks) => ks@,
        NumericTerm::Max(ks) => ks@,
        NumericTerm::Bound { bound, term } => seq![term],
        _ => Seq::empty(),
    }
}

/// Two terms are the same: of one kind, over the same values and keys in order.
pub open spec fn same_numeric<V, T>(a: NumericTerm<V, T>, b: NumericTerm<V, T>) -> bool {
    match (a, b) {
        (NumericTerm::Const(x), NumericTerm::Const(y)) => x == y,
        (NumericTerm::Var(x), NumericTerm::Var(y)) => x == y,
        (NumericTerm::Add(l1, r1), NumericTerm::Add(l2, r2)) => l1 == l2 && r1 == r2,
        (NumericTerm::Mult(l1, r1), NumericTerm::Mult(l2, r2)) => l1 == l2 && r1 == r2,
        (NumericTerm::Min(p), NumericTerm::Min(q)) => p@ == q@,
        (NumericTerm::Max(p), NumericTerm::Max(q)) => p@ == q@,
        (NumericTerm::Bound { bound: b1, term: t1 }, NumericTerm::Bound { bound: b2, term: t2 }) => b1 == b2 && t1 == t2,
        _ => false,
    }
}

/// The indices of a sequence of keys, as a set.
pub open spec fn index_set<T: Key>(ks: Seq<T>) -> Set<usize> {
    Set::new(|x: usize| exists|i: int| 0 <= i < ks.len() && (#[trigger] ks[i]).key_index() == x)
}

/// The indices of the keys increase.
pub open spec fn increasing<T: Key>(ks: Seq<T>) -> bool {
    forall|i: int, j: int| 0 <= i < j < ks.len() ==> (#[trigger] ks[i]).key_index() < (#[trigger] ks[j]).key_index()
}

/// A stored term stands for a given one: a minimum or a maximum over the same set of keys, held
/// in increasing order; any other term the same.
pub open spec fn stands_for<V, T: Key>(stored: NumericTerm<V, T>, term: NumericTerm<V, T>) -> bool {
    match (stored, term) {
        (NumericTerm::Min(p), NumericTerm::Min(q)) => increasing(p@) && index_set(p@) == index_set(q@),
        (NumericTerm::Max(p), NumericTerm::Max(q)) => increasing(p@) && index_set(p@) == index_set(q@),
        _ => same_numeric(stored, term),
    }
}

/// A copy of a list of keys.
fn copy_term_keys<T: Copy>(ks: &Vec<T>) -> (r: Vec<T>)
    ensures
        r@ == ks@,
{
    let mut r: Vec<T> = Vec::new();
    let mut j: usize = 0;
    while j < ks.len()
        invariant
            0 <= j <= ks@.len(),
            r@ == ks@.take(j as int),
        decreases ks@.len() - j,
    {
        r.push(ks[j]);
        proof {
            assert(ks@.take(j + 1) =~= ks@.take(j as int).push(ks@[j as int]));
        }
        j = j + 1;
    }
    proof {
        assert(ks@.take(ks@.len() as int) =~= ks@);
    }
    r
}

impl<V: Copy, T: Copy> Clone for NumericTerm<V, T> {
    fn clone(&self) -> (r: Self)
        ensures
            same_numeric(r, *self),
    {
        match self {
            NumericTerm::Const(n) => NumericTerm::Const(*n),
            NumericTerm::Var(v) => NumericTerm::Var(*v),
            NumericTerm::Add(l, r) => NumericTerm::Add(*l, *r),
            NumericTerm::Mult(l, r) => NumericTerm::Mult(*l, *r),
            NumericTerm::Min(ks) => NumericTerm::Min(copy_term_keys(ks)),
            NumericTerm::Max(ks) => NumericTerm::Max(copy_term_keys(ks)),
            NumericTerm::Bound { bound, term } => NumericTerm::Bound { bound: *bound, term: *term },
        }
    }
}

/// The sum of two numbers: infinity when either is infinite or the sum leaves the range of `u32`.
pub open spec fn number_sum(a: Number, b: Number) -> Number {
    match (a, b) {
        (Number::Val(x), Number::Val(y)) => if x + y <= u32::MAX {
            Number::Val((x + y) as u32)
        } else {
            Number::Inf
        },
        _ => Number::Inf,
    }
}

/// The product of two numbers: infinity when either is infinite or the product leaves the range
/// of `u32`.
pub open spec fn number_product(a: Number, b: Number) -> Number {
    match (a, b) {
        (Number::Val(x), Number::Val(y)) => if x * y <= u32::MAX {
            Number::Val((x * y) as u32)
        } else {
            Number::Inf
        },
        _ => Number::Inf,
    }
}

/// The lesser of two numbers.
pub open spec fn number_min(a: Number, b: Number) -> Number {
    if number_lt(b, a) {
        b
    } else {
        a
    }
}

/// The greater of two numbers.
pub open spec fn number_max(a: Number, b: Number) -> Number {
    if number_lt(a, b) {
        b
    } else {
        a
    }
}

/// Zero where `value` is within `bound`, infinity where it is not; an infinite bound holds every
/// number.
pub open spec fn bound_value(bound: Number, value: Number) -> Number {
    match (bound, value) {
        (Number::Val(b), Number::Val(x)) => if x <= b {
            Number::Val(0)
        } else {
            Number::Inf
        },
        (Number::Inf, Number::Val(_)) => Number::Val(0),
        _ => Number::Inf,
    }
}

fn sum_of(a: Number, b: Number) -> (r: Number)
    ensures
        r == number_sum(a, b),
{
    match (a, b) {
        (Number::Val(x), Number::Val(y)) => match x.checked_add(y) {
            Some(s) => Number::Val(s),
            None => Number::Inf,
        },
        _ => Number::Inf,
    }
}

fn product_of(a: Number, b: Number) -> (r: Number)
    ensures
        r == number_product(a, b),
{
    match (a, b) {
        (Number::Val(x), Number::Val(y)) => match x.checked_mul(y) {
            Some(p) => Number::Val(p),
            None => Number::Inf,
        },
        _ => Number::Inf,
    }
}

fn min_of(a: Number, b: Number) -> (r: Number)
    ensures
        r == number_min(a, b),
{
    if b.is_below(&a) {
        b
    } else {
        a
    }
}

fn max_of(a: Number, b: Number) -> (r: Number)
    ensures
        r == number_max(a, b),
{
    if a.is_below(&b) {
        b
    } else {
        a
    }
}

fn bound_of(bound: Number, value: Number) -> (r: Number)
    ensures
        r == bound_value(bound, value),
{
    match (bound, value) {
        (Number::Val(b), Number::Val(x)) => if x <= b {
            Number::Val(0)
        } else {
            Number::Inf
        },
        (Number::Inf, Number::Val(_)) => Number::Val(0),
        _ => Number::Inf,
    }
}

/// A numeric system: each variable defined by a term, each term found by its key.
pub trait NumericSystem<V: Copy, T: Copy, N>: TermSystem<V, Number, T> + Sized {
    /// The term of a key.
    spec fn term_of(&self, term_key: T) -> NumericTerm<V, T>;

    /// The height of a term: above the heights of its subterms.
    spec fn height(&self, term_key: T) -> nat;

    /// Subterms are lower than their term.
    proof fn lemma_subterms_lower(&self, term_key: T)
        ensures
            forall|i: int|
                0 <= i < num_subterms(self.term_of(term_key)).len() ==> #[trigger] self.height(num_subterms(self.term_of(term_key))[i])
                    < self.height(term_key),
    ;

    /// The term of a key.
    fn get_term(&self, term_key: T) -> (r: NumericTerm<V, T>)
        ensures
            same_numeric(r, self.term_of(term_key)),
    ;

    /// The value of a term under an assignment.
    spec fn value_of(&self, term_key: T, assignment: Map<V, Number>) -> Number;

    /// The value of a term under an assignment.
    fn evaluate_term(&self, term_key: T, assignment: &HashMap<V, Number>) -> (r: Number)
        ensures
            r == self.value_of(term_key, assignment@),
    ;
}

/// Every subterm of each term comes before it, and the keys of each minimum and maximum increase.
pub open spec fn ordered_numeric<V, T: Key>(terms: Seq<NumericTerm<V, T>>) -> bool {
    &&& forall|i: int, j: int|
        0 <= i < terms.len() && 0 <= j < num_subterms(terms[i]).len() ==> (#[trigger] num_subterms(terms[i])[j]).key_index() < i
    &&& forall|i: int| 0 <= i < terms.len() ==> (#[trigger] terms[i] matches NumericTerm::Min(ks) ==> increasing(ks@))
    &&& forall|i: int| 0 <= i < terms.len() ==> (#[trigger] terms[i] matches NumericTerm::Max(ks) ==> increasing(ks@))
}

/// Every variable of a term is among the first `count` variables.
pub open spec fn named_vars<V: Key, T>(terms: Seq<NumericTerm<V, T>>, count: nat) -> bool {
    forall|i: int| 0 <= i < terms.len() ==> (#[trigger] terms[i] matches NumericTerm::Var(v) ==> v.key_index() < count)
}

/// The subterm `j` of the term at `t` comes before it.
pub proof fn lemma_subterm_before<V, T: Key>(terms: Seq<NumericTerm<V, T>>, t: T, j: int)
    requires
        ordered_numeric(terms),
        t.key_index() < terms.len(),
        0 <= j < num_subterms(terms[t.key_index() as int]).len(),
    ensures
        num_subterms(terms[t.key_index() as int])[j].key_index() < t.key_index(),
{
}

/// The value of the term of `t` among `terms` under an assignment, where a variable without a
/// value is infinite, and so is a key without a term.
pub open spec fn num_value<V: Key, T: Key>(terms: Seq<NumericTerm<V, T>>, t: T, a: Map<V, Number>) -> Number
    decreases t.key_index() + 1, 0int,
{
    if !ordered_numeric(terms) || t.key_index() >= terms.len() {
        Number::Inf
    } else {
        proof {
            if num_subterms(terms[t.key_index() as int]).len() > 0 {
                lemma_subterm_before(terms, t, 0);
            }
            if num_subterms(terms[t.key_index() as int]).len() > 1 {
                lemma_subterm_before(terms, t, 1);
            }
        }
        match terms[t.key_index() as int] {
            NumericTerm::Const(n) => n,
            NumericTerm::Var(v) => assigned_value(a, v),
            NumericTerm::Add(l, r) => number_sum(num_value(terms, l, a), num_value(terms, r, a)),
            NumericTerm::Mult(l, r) => number_product(num_value(terms, l, a), num_value(terms, r, a)),
            NumericTerm::Min(ks) => num_min(terms, a, ks@.len() as int, t),
            NumericTerm::Max(ks) => num_max(terms, a, ks@.len() as int, t),
            NumericTerm::Bound { bound, term } => bound_value(bound, num_value(terms, term, a)),
        }
    }
}

/// The least value of the first `n` subterms of the term of `parent`; infinity for none.
pub open spec fn num_min<V: Key, T: Key>(terms: Seq<NumericTerm<V, T>>, a: Map<V, Number>, n: int, parent: T) -> Number
    decreases parent.key_index(), n,
{
    if !ordered_numeric(terms) || parent.key_index() >= terms.len() || n <= 0 || n > num_subterms(
        terms[parent.key_index() as int],
    ).len() {
        Number::Inf
    } else {
        proof {
            lemma_subterm_before(terms, parent, n - 1);
        }
        number_min(num_min(terms, a, n - 1, parent), num_value(terms, num_subterms(terms[parent.key_index() as int])[n - 1], a))
    }
}

/// The greatest value of the first `n` subterms of the term of `parent`; zero for none.
pub open spec fn num_max<V: Key, T: Key>(terms: Seq<NumericTerm<V, T>>, a: Map<V, Number>, n: int, parent: T) -> Number
    decreases parent.key_index(), n,
{
    if !ordered_numeric(terms) || parent.key_index() >= terms.len() || n <= 0 || n > num_subterms(
        terms[parent.key_index() as int],
    ).len() {
        Number::Val(0)
    } else {
        proof {
            lemma_subterm_before(terms, parent, n - 1);
        }
        number_max(num_max(terms, a, n - 1, parent), num_value(terms, num_subterms(terms[parent.key_index() as int])[n - 1], a))
    }
}

/// The indices of the variables that occur in the term of `t` among `terms`.
pub open spec fn num_vars<V: Key, T: Key>(terms: Seq<NumericTerm<V, T>>, t: T) -> Set<usize>
    decreases t.key_index() + 1, 0int,
{
    if !ordered_numeric(terms) || t.key_index() >= terms.len() {
        Set::empty()
    } else {
        match terms[t.key_index() as int] {
            NumericTerm::Var(v) => set![v.key_index()],
            NumericTerm::Const(_) => Set::empty(),
            _ => num_subterm_vars(terms, num_subterms(terms[t.key_index() as int]).len() as int, t),
        }
    }
}

/// The indices of the variables that occur in the first `n` subterms of the term of `parent`.
pub open spec fn num_subterm_vars<V: Key, T: Key>(terms: Seq<NumericTerm<V, T>>, n: int, parent: T) -> Set<usize>
    decreases parent.key_index(), n,
{
    if !ordered_numeric(terms) || parent.key_index() >= terms.len() || n <= 0 || n > num_subterms(
        terms[parent.key_index() as int],
    ).len() {
        Set::empty()
    } else {
        proof {
            lemma_subterm_before(terms, parent, n - 1);
        }
        num_subterm_vars(terms, n - 1, parent).union(num_vars(terms, num_subterms(terms[parent.key_index() as int])[n - 1]))
    }
}

/// `a` lies at or below `b`: equal, or a number before a larger one or infinity.
pub open spec fn number_le(a: Number, b: Number) -> bool {
    a == b || number_lt(a, b)
}

/// Sums, products, the lesser and greater of two numbers and bounds do not go down where their
/// arguments go up.
proof fn lemma_operations_monotone(a: Number, b: Number, c: Number, d: Number, bound: Number)
    requires
        number_le(a, c),
        number_le(b, d),
    ensures
        number_le(number_sum(a, b), number_sum(c, d)),
        number_le(number_product(a, b), number_product(c, d)),
        number_le(number_min(a, b), number_min(c, d)),
        number_le(number_max(a, b), number_max(c, d)),
        number_le(bound_value(bound, a), bound_value(bound, c)),
{
    if let (Number::Val(x), Number::Val(y), Number::Val(z), Number::Val(w)) = (a, b, c, d) {
        assert(x * y <= z * w) by (nonlinear_arith)
            requires
                x <= z,
                y <= w,
        ;
    }
}

/// Raising the values of an assignment does not lower the value of a term.
proof fn lemma_num_value_monotone<V: Key, T: Key>(terms: Seq<NumericTerm<V, T>>, t: T, lo: Map<V, Number>, hi: Map<V, Number>)
    requires
        forall|k: V| #[trigger] number_le(assigned_value(lo, k), assigned_value(hi, k)),
    ensures
        number_le(num_value(terms, t, lo), num_value(terms, t, hi)),
    decreases t.key_index() + 1, 0int,
{
    if ordered_numeric(terms) && t.key_index() < terms.len() {
        match terms[t.key_index() as int] {
            NumericTerm::Var(v) => {
                assert(number_le(assigned_value(lo, v), assigned_value(hi, v)));
            },
            NumericTerm::Add(l, r) => {
                lemma_subterm_before(terms, t, 0);
                lemma_subterm_before(terms, t, 1);
                lemma_num_value_monotone(terms, l, lo, hi);
                lemma_num_value_monotone(terms, r, lo, hi);
                lemma_operations_monotone(num_value(terms, l, lo), num_value(terms, r, lo), num_value(terms, l, hi), num_value(terms, r, hi), Number::Inf);
            },
            NumericTerm::Mult(l, r) => {
                lemma_subterm_before(terms, t, 0);
                lemma_subterm_before(terms, t, 1);
                lemma_num_value_monotone(terms, l, lo, hi);
                lemma_num_value_monotone(terms, r, lo, hi);
                lemma_operations_monotone(num_value(terms, l, lo), num_value(terms, r, lo), num_value(terms, l, hi), num_value(terms, r, hi), Number::Inf);
            },
            NumericTerm::Min(ks) => lemma_num_min_monotone(terms, lo, hi, ks@.len() as int, t),
            NumericTerm::Max(ks) => lemma_num_max_monotone(terms, lo, hi, ks@.len() as int, t),
            NumericTerm::Bound { bound, term } => {
                lemma_subterm_before(terms, t, 0);
                lemma_num_value_monotone(terms, term, lo, hi);
                lemma_operations_monotone(num_value(terms, term, lo), Number::Inf, num_value(terms, term, hi), Number::Inf, bound);
            },
            _ => {},
        }
    }
}

/// Raising the values of an assignment does not lower the least of the first `n` subterms.
proof fn lemma_num_min_monotone<V: Key, T: Key>(terms: Seq<NumericTerm<V, T>>, lo: Map<V, Number>, hi: Map<V, Number>, n: int, parent: T)
    requires
        forall|k: V| #[trigger] number_le(assigned_value(lo, k), assigned_value(hi, k)),
    ensures
        number_le(num_min(terms, lo, n, parent), num_min(terms, hi, n, parent)),
    decreases parent.key_index(), n,
{
    if ordered_numeric(terms) && parent.key_index() < terms.len() && 0 < n <= num_subterms(terms[parent.key_index() as int]).len() {
        let sub = num_subterms(terms[parent.key_index() as int])[n - 1];
        lemma_subterm_before(terms, parent, n - 1);
        lemma_num_min_monotone(terms, lo, hi, n - 1, parent);
        lemma_num_value_monotone(terms, sub, lo, hi);
        lemma_operations_monotone(num_min(terms, lo, n - 1, parent), num_value(terms, sub, lo), num_min(terms, hi, n - 1, parent), num_value(terms, sub, hi), Number::Inf);
    }
}

/// Raising the values of an assignment does not lower the greatest of the first `n` subterms.
proof fn lemma_num_max_monotone<V: Key, T: Key>(terms: Seq<NumericTerm<V, T>>, lo: Map<V, Number>, hi: Map<V, Number>, n: int, parent: T)
    requires
        forall|k: V| #[trigger] number_le(assigned_value(lo, k), assigned_value(hi, k)),
    ensures
        number_le(num_max(terms, lo, n, parent), num_max(terms, hi, n, parent)),
    decreases parent.key_index(), n,
{
    if ordered_numeric(terms) && parent.key_index() < terms.len() && 0 < n <= num_subterms(terms[parent.key_index() as int]).len() {
        let sub = num_subterms(terms[parent.key_index() as int])[n - 1];
        lemma_subterm_before(terms, parent, n - 1);
        lemma_num_max_monotone(terms, lo, hi, n - 1, parent);
        lemma_num_value_monotone(terms, sub, lo, hi);
        lemma_operations_monotone(num_max(terms, lo, n - 1, parent), num_value(terms, sub, lo), num_max(terms, hi, n - 1, parent), num_value(terms, sub, hi), Number::Inf);
    }
}

/// A numeric system. A term may only refer to terms added before it, so that evaluation ends.
pub struct NumericSystemImpl<V: Key, T: Key, N> {
    names: BiArena<V, N>,
    definitions: SecondaryArena<V, T>,
    terms: Arena<T, NumericTerm<V, T>>,
    locked: bool,
}

impl<V: Key, T: Key, N> NumericSystemImpl<V, T, N> {
    /// The terms, by the index of their keys.
    pub closed spec fn term_list(self) -> Seq<NumericTerm<V, T>> {
        self.terms@
    }

    /// The term that defines each variable, by the variable's index.
    pub closed spec fn definition_map(self) -> Map<usize, T> {
        self.definitions@
    }

    /// The names of the variables, by the index of their keys.
    pub closed spec fn name_list(self) -> Seq<N> {
        self.names.values()
    }

    /// The key of each name.
    pub closed spec fn name_keys(self) -> Map<N, V> {
        self.names.key_map()
    }

    /// Whether the system is locked.
    pub closed spec fn is_locked(self) -> bool {
        self.locked
    }

    /// The terms are ordered, their variables named, and the defined variables can be held in a
    /// set.
    #[verifier::type_invariant]
    pub closed spec fn well_formed(self) -> bool {
        &&& ordered_numeric(self.terms@)
        &&& named_vars(self.terms@, self.names.values().len())
        &&& self.names.values().len() <= usize::MAX
        &&& forall|i: usize| #[trigger] self.definitions@.contains_key(i) ==> i < usize::MAX
    }

    pub fn new() -> (r: Self)
        ensures
            r.term_list() == Seq::<NumericTerm<V, T>>::empty(),
            r.definition_map() == Map::<usize, T>::empty(),
            r.name_list() == Seq::<N>::empty(),
    {
        NumericSystemImpl { names: BiArena::new(), definitions: SecondaryArena::new(), terms: Arena::new(), locked: false }
    }

    /// The name of a variable.
    pub fn name_of(&self, variable: V) -> (r: &N)
        requires
            variable.key_index() < self.name_list().len(),
        ensures
            *r == self.name_list()[variable.key_index() as int],
    {
        self.names.get_value(variable)
    }

    /// The number of named variables.
    pub fn variable_count(&self) -> (r: usize)
        ensures
            r == self.name_list().len(),
    {
        self.names.len()
    }

    /// Define a variable by a term, returning the term that defined it before, if any.
    pub fn define(&mut self, variable: V, term: T) -> (r: Option<T>)
        requires
            variable.key_index() < usize::MAX,
        ensures
            final(self).definition_map() == old(self).definition_map().insert(variable.key_index(), term),
            final(self).term_list() == old(self).term_list(),
            final(self).name_list() == old(self).name_list(),
            r == if old(self).definition_map().contains_key(variable.key_index()) {
                Some(old(self).definition_map()[variable.key_index()])
            } else {
                None
            },
    {
        proof {
            use_type_invariant(&*self);
        }
        let mut definitions = SecondaryArena::new();
        std::mem::swap(&mut definitions, &mut self.definitions);
        let r = definitions.insert(variable, term);
        std::mem::swap(&mut definitions, &mut self.definitions);
        r
    }

    /// The term of a key, where there is one.
    pub fn term_at(&self, term_key: T) -> (r: Option<&NumericTerm<V, T>>)
        ensures
            r == if term_key.key_index() < self.term_list().len() {
                Some(&self.term_list()[term_key.key_index() as int])
            } else {
                None
            },
            r matches Some(t) ==> forall|j: int| 0 <= j < num_subterms(*t).len() ==> (#[trigger] num_subterms(*t)[j]).key_index() < term_key.key_index(),
            r matches Some(t) ==> (*t matches NumericTerm::Var(v) ==> v.key_index() < self.name_list().len()),
    {
        proof {
            use_type_invariant(self);
        }
        if term_key.index() < self.terms.len() {
            Some(self.terms.get(term_key))
        } else {
            None
        }
    }

    /// Each defined variable with the term that defines it, by the variable's index.
    pub fn definitions(&self) -> (r: Vec<(V, T)>)
        ensures
            forall|i: int| 0 <= i < r@.len() ==> self.definition_map().contains_key((#[trigger] r@[i]).0.key_index())
                && self.definition_map()[r@[i].0.key_index()] == r@[i].1,
            forall|i: int, j: int| 0 <= i < j < r@.len() ==> (#[trigger] r@[i]).0.key_index() < (#[trigger] r@[j]).0.key_index(),
            forall|k: usize| #[trigger] self.definition_map().contains_key(k) ==> exists|i: int| 0 <= i < r@.len() && (#[trigger] r@[i]).0.key_index() == k,
    {
        let entries = self.definitions.iter();
        let mut r: Vec<(V, T)> = Vec::new();
        let mut j: usize = 0;
        while j < entries.len()
            invariant
                0 <= j <= entries@.len(),
                r@.len() == j,
                forall|i: int| 0 <= i < j ==> (#[trigger] r@[i]).0 == entries@[i].0 && r@[i].1 == *entries@[i].1,
            decreases entries@.len() - j,
        {
            let (k, t) = entries[j];
            r.push((k, *t));
            j = j + 1;
        }
        proof {
            assert forall|k: usize| #[trigger] self.definition_map().contains_key(k) implies exists|i: int| 0 <= i < r@.len() && (#[trigger] r@[i]).0.key_index() == k by {
                let i = choose|i: int| 0 <= i < entries@.len() && (#[trigger] entries@[i]).0.key_index() == k;
                assert(r@[i].0.key_index() == k);
            }
        }
        r
    }
}

impl<V: Key, T: Key, N: Hash + Eq + Clone> NumericSystemImpl<V, T, N> {
    /// The key of the variable of a name, naming a new variable where there is none.
    pub fn variable(&mut self, name: N) -> (r: V)
        requires
            old(self).name_list().len() < usize::MAX,
        ensures
            final(self).term_list() == old(self).term_list(),
            final(self).definition_map() == old(self).definition_map(),
            r.key_index() < final(self).name_list().len(),
            final(self).name_list().len() <= old(self).name_list().len() + 1,
            final(self).name_list().take(old(self).name_list().len() as int) == old(self).name_list(),
            obeys_key_model::<N>() && old(self).name_keys().contains_key(name) && old(self).name_keys()[name].key_index()
                < old(self).name_list().len() ==> r == old(self).name_keys()[name] && final(self).name_list() == old(
                self,
            ).name_list() && final(self).name_keys() == old(self).name_keys(),
            obeys_key_model::<N>() && !old(self).name_keys().contains_key(name) ==> {
                &&& r.key_index() == old(self).name_list().len()
                &&& final(self).name_list().len() == old(self).name_list().len() + 1
                &&& cloned(name, final(self).name_list()[old(self).name_list().len() as int])
                &&& final(self).name_keys() == old(self).name_keys().insert(name, r)
            },
    {
        proof {
            use_type_invariant(&*self);
        }
        let mut terms = Arena::new();
        std::mem::swap(&mut terms, &mut self.terms);
        let mut names = BiArena::new();
        std::mem::swap(&mut names, &mut self.names);
        let r = names.get_or_insert_key(name);
        std::mem::swap(&mut names, &mut self.names);
        proof {
            assert forall|i: int| 0 <= i < terms@.len() implies (#[trigger] terms@[i] matches NumericTerm::Var(v) ==> v.key_index()
                < self.names.values().len()) by {
                assert(old(self).names.values().len() <= self.names.values().len());
            }
        }
        std::mem::swap(&mut terms, &mut self.terms);
        r
    }
}

/// The keys in increasing order of their indices, each index once.
fn key_set<T: Key>(ks: &Vec<T>) -> (r: Vec<T>)
    ensures
        increasing(r@),
        index_set(r@) == index_set(ks@),
        forall|i: int| 0 <= i < r@.len() ==> ks@.contains(#[trigger] r@[i]),
{
    let mut r: Vec<T> = Vec::new();
    let mut j: usize = 0;
    while j < ks.len()
        invariant
            0 <= j <= ks@.len(),
            increasing(r@),
            index_set(r@) == index_set(ks@.take(j as int)),
            forall|i: int| 0 <= i < r@.len() ==> ks@.contains(#[trigger] r@[i]),
        decreases ks@.len() - j,
    {
        let k = ks[j];
        let ki = k.index();
        let mut p: usize = 0;
        while p < r.len() && r[p].index() < ki
            invariant
                0 <= p <= r@.len(),
                forall|i: int| 0 <= i < p ==> (#[trigger] r@[i]).key_index() < ki,
            decreases r@.len() - p,
        {
            p = p + 1;
        }
        let ghost before = r@;
        proof {
            assert(ks@.take(j + 1) =~= ks@.take(j as int).push(k));
        }
        if p < r.len() && r[p].index() == ki {
            proof {
                assert forall|x: usize| index_set(r@).contains(x) == index_set(ks@.take(j + 1)).contains(x) by {
                    if index_set(ks@.take(j + 1)).contains(x) {
                        let i = choose|i: int| 0 <= i < j + 1 && (#[trigger] ks@.take(j + 1)[i]).key_index() == x;
                        if i < j {
                            assert(ks@.take(j as int)[i] == ks@.take(j + 1)[i]);
                            assert(index_set(ks@.take(j as int)).contains(x));
                        }
                    }
                    if index_set(r@).contains(x) {
                        let i = choose|i: int| 0 <= i < r@.len() && (#[trigger] r@[i]).key_index() == x;
                        assert(index_set(ks@.take(j as int)).contains(x));
                        let i2 = choose|i2: int| 0 <= i2 < j && (#[trigger] ks@.take(j as int)[i2]).key_index() == x;
                        assert(ks@.take(j + 1)[i2] == ks@.take(j as int)[i2]);
                    }
                }
                assert(index_set(r@) =~= index_set(ks@.take(j + 1)));
            }
        } else {
            r.insert(p, k);
            proof {
                assert forall|a: int, b: int| 0 <= a < b < r@.len() implies (#[trigger] r@[a]).key_index() < (#[trigger] r@[b]).key_index() by {
                    if b < p {
                    } else if b == p {
                    } else if a < p {
                        assert(r@[b] == before[b - 1]);
                        assert(before[b - 1].key_index() > ki || b - 1 == p) by {
                            if b - 1 > p {
                                assert(before[p as int].key_index() < before[b - 1].key_index());
                            }
                        }
                    } else if a == p {
                        assert(r@[b] == before[b - 1]);
                        if b - 1 > p {
                            assert(before[p as int].key_index() < before[b - 1].key_index());
                        }
                    } else {
                        assert(r@[a] == before[a - 1]);
                        assert(r@[b] == before[b - 1]);
                    }
                }
                assert forall|x: usize| index_set(r@).contains(x) == index_set(ks@.take(j + 1)).contains(x) by {
                    if index_set(ks@.take(j + 1)).contains(x) {
                        let i = choose|i: int| 0 <= i < j + 1 && (#[trigger] ks@.take(j + 1)[i]).key_index() == x;
                        if i < j {
                            assert(ks@.take(j as int)[i] == ks@.take(j + 1)[i]);
                            assert(index_set(before).contains(x));
                            let i2 = choose|i2: int| 0 <= i2 < before.len() && (#[trigger] before[i2]).key_index() == x;
                            if i2 < p {
                                assert(r@[i2] == before[i2]);
                            } else {
                                assert(r@[i2 + 1] == before[i2]);
                            }
                        } else {
                            assert(r@[p as int] == k);
                        }
                    }
                    if index_set(r@).contains(x) {
                        let i = choose|i: int| 0 <= i < r@.len() && (#[trigger] r@[i]).key_index() == x;
                        if i == p {
                            assert(ks@.take(j + 1)[j as int] == k);
                        } else {
                            let i3 = if i < p {
                                i
                            } else {
                                i - 1
                            };
                            assert(before[i3] == r@[i]);
                            assert(index_set(before).contains(x));
                            let i2 = choose|i2: int| 0 <= i2 < j && (#[trigger] ks@.take(j as int)[i2]).key_index() == x;
                            assert(ks@.take(j + 1)[i2] == ks@.take(j as int)[i2]);
                        }
                    }
                }
                assert(index_set(r@) =~= index_set(ks@.take(j + 1)));
                assert forall|i: int| 0 <= i < r@.len() implies ks@.contains(#[trigger] r@[i]) by {
                    if i == p {
                        assert(ks@[j as int] == k);
                    } else if i < p {
                        assert(r@[i] == before[i]);
                    } else {
                        assert(r@[i] == before[i - 1]);
                    }
                }
            }
        }
        j = j + 1;
    }
    proof {
        assert(ks@.take(ks@.len() as int) =~= ks@);
    }
    r
}

/// Whether two lists of keys are the same, by the indices of the keys.
fn same_key_list<T: Key>(p: &Vec<T>, q: &Vec<T>) -> (r: bool)
    ensures
        r == (p@ == q@),
{
    if p.len() != q.len() {
        return false;
    }
    let mut j: usize = 0;
    while j < p.len()
        invariant
            0 <= j <= p@.len(),
            p@.len() == q@.len(),
            forall|i: int| 0 <= i < j ==> p@[i] == q@[i],
        decreases p@.len() - j,
    {
        proof {
            T::lemma_key_index(p@[j as int], 0);
            T::lemma_key_index(q@[j as int], 0);
        }
        if p[j].index() != q[j].index() {
            return false;
        }
        j = j + 1;
    }
    proof {
        assert(p@ =~= q@);
    }
    true
}

/// Whether two keys are the same, by their indices.
fn same_key<T: Key>(a: T, b: T) -> (r: bool)
    ensures
        r == (a == b),
{
    proof {
        T::lemma_key_index(a, 0);
        T::lemma_key_index(b, 0);
    }
    a.index() == b.index()
}

/// Whether two terms are the same, by the indices of their keys.
fn same_numeric_exec<V: Key, T: Key>(a: &NumericTerm<V, T>, b: &NumericTerm<V, T>) -> (r: bool)
    ensures
        r == same_numeric(*a, *b),
{
    match (a, b) {
        (NumericTerm::Const(x), NumericTerm::Const(y)) => *x == *y,
        (NumericTerm::Var(x), NumericTerm::Var(y)) => same_key(*x, *y),
        (NumericTerm::Add(l1, r1), NumericTerm::Add(l2, r2)) => same_key(*l1, *l2) && same_key(*r1, *r2),
        (NumericTerm::Mult(l1, r1), NumericTerm::Mult(l2, r2)) => same_key(*l1, *l2) && same_key(*r1, *r2),
        (NumericTerm::Min(p), NumericTerm::Min(q)) => same_key_list(p, q),
        (NumericTerm::Max(p), NumericTerm::Max(q)) => same_key_list(p, q),
        (NumericTerm::Bound { bound: b1, term: t1 }, NumericTerm::Bound { bound: b2, term: t2 }) => *b1 == *b2 && same_key(*t1, *t2),
        _ => false,
    }
}

impl<V: Key, T: Key, N> NumericSystemImpl<V, T, N> {
    /// The key of a term, adding the term where none that stands for it is there. Its subterms
    /// must come before it; the keys of a minimum or a maximum are stored as a set, in increasing
    /// order.
    pub fn term(&mut self, term: NumericTerm<V, T>) -> (r: T)
        requires
            old(self).term_list().len() < usize::MAX,
            forall|j: int| 0 <= j < num_subterms(term).len() ==> (#[trigger] num_subterms(term)[j]).key_index() < old(self).term_list().len(),
            term matches NumericTerm::Var(v) ==> v.key_index() < old(self).name_list().len(),
        ensures
            r.key_index() < final(self).term_list().len(),
            stands_for(final(self).term_list()[r.key_index() as int], term),
            final(self).term_list().len() <= old(self).term_list().len() + 1,
            final(self).term_list().take(old(self).term_list().len() as int) == old(self).term_list(),
            (forall|j: int| 0 <= j < old(self).term_list().len() ==> !stands_for(#[trigger] old(self).term_list()[j], term))
                ==> final(self).term_list().len() == old(self).term_list().len() + 1,
            final(self).definition_map() == old(self).definition_map(),
            final(self).name_list() == old(self).name_list(),
    {
        proof {
            use_type_invariant(&*self);
        }
        let ghost given = term;
        let normal = match term {
            NumericTerm::Min(ks) => NumericTerm::Min(key_set(&ks)),
            NumericTerm::Max(ks) => NumericTerm::Max(key_set(&ks)),
            other => other,
        };
        proof {
            assert forall|j: int| 0 <= j < num_subterms(normal).len() implies (#[trigger] num_subterms(normal)[j]).key_index()
                < old(self).term_list().len() by {
                if normal is Min || normal is Max {
                    let k = num_subterms(normal)[j];
                    assert(num_subterms(given).contains(k));
                    let i = choose|i: int| 0 <= i < num_subterms(given).len() && num_subterms(given)[i] == k;
                }
            }
            assert(stands_for(normal, given));
        }
        let n = self.terms.len();
        let mut i: usize = 0;
        while i < n
            invariant
                0 <= i <= n,
                n == self.terms@.len(),
                self.terms@ == old(self).terms@,
                forall|j: int| 0 <= j < i ==> !same_numeric(#[trigger] self.terms@[j], normal),
                stands_for(normal, given),
                given == term,
            decreases n - i,
        {
            let key = T::from_index(i);
            if same_numeric_exec(self.terms.get(key), &normal) {
                proof {
                    assert(self.terms@.take(n as int) =~= self.terms@);
                    assert(stands_for(old(self).term_list()[i as int], term));
                }
                return key;
            }
            i = i + 1;
        }
        let mut terms = Arena::new();
        std::mem::swap(&mut terms, &mut self.terms);
        let r = terms.insert(normal);
        proof {
            assert(terms@.take(n as int) =~= old(self).terms@);
            assert(self.names == old(self).names);
            assert forall|i: int, j: int| 0 <= i < terms@.len() && 0 <= j < num_subterms(terms@[i]).len() implies (
            #[trigger] num_subterms(terms@[i])[j]).key_index() < i by {
                if i < n {
                    assert(terms@[i] == old(self).terms@[i]);
                }
            }
            assert forall|i: int| 0 <= i < terms@.len() implies (#[trigger] terms@[i] matches NumericTerm::Var(v) ==> v.key_index()
                < self.names.values().len()) by {
                if i < n {
                    assert(terms@[i] == old(self).terms@[i]);
                }
            }
            assert forall|i: int| 0 <= i < terms@.len() implies (#[trigger] terms@[i] matches NumericTerm::Min(ks) ==> increasing(
                ks@,
            )) by {
                if i < n {
                    assert(terms@[i] == old(self).terms@[i]);
                }
            }
            assert forall|i: int| 0 <= i < terms@.len() implies (#[trigger] terms@[i] matches NumericTerm::Max(ks) ==> increasing(
                ks@,
            )) by {
                if i < n {
                    assert(terms@[i] == old(self).terms@[i]);
                }
            }
        }
        std::mem::swap(&mut terms, &mut self.terms);
        r
    }

    /// The value of a term under an assignment.
    fn eval(&self, t: T, assignment: &HashMap<V, Number>) -> (r: Number)
        where
            V: Eq + Hash,
        ensures
            r == num_value(self.terms@, t, assignment@),
        decreases t.key_index(),
    {
        proof {
            use_type_invariant(self);
        }
        if t.index() >= self.terms.len() {
            return Number::Inf;
        }
        let term = self.terms.get(t);
        let ghost subs = num_subterms(*term);
        proof {
            assert forall|j: int| 0 <= j < subs.len() implies (#[trigger] subs[j]).key_index() < t.key_index() by {
                lemma_subterm_before(self.terms@, t, j);
            }
        }
        match term {
            NumericTerm::Const(n) => *n,
            NumericTerm::Var(v) => assignment.get_assignment(v),
            NumericTerm::Add(l, r) => {
                proof {
                    assert(subs[0] == *l && subs[1] == *r);
                }
                let a = self.eval(*l, assignment);
                let b = self.eval(*r, assignment);
                sum_of(a, b)
            },
            NumericTerm::Mult(l, r) => {
                proof {
                    assert(subs[0] == *l && subs[1] == *r);
                }
                let a = self.eval(*l, assignment);
                let b = self.eval(*r, assignment);
                product_of(a, b)
            },
            NumericTerm::Bound { bound, term: inner } => {
                proof {
                    assert(subs[0] == *inner);
                }
                let v = self.eval(*inner, assignment);
                bound_of(*bound, v)
            },
            NumericTerm::Min(ks) => {
                let mut acc = Number::Inf;
                let mut j: usize = 0;
                while j < ks.len()
                    invariant
                        0 <= j <= ks@.len(),
                        ks@ == subs,
                        t.key_index() < self.terms@.len(),
                        ordered_numeric(self.terms@),
                        subs == num_subterms(self.terms@[t.key_index() as int]),
                        self.terms@[t.key_index() as int] is Min,
                        forall|i: int| 0 <= i < subs.len() ==> (#[trigger] subs[i]).key_index() < t.key_index(),
                        acc == num_min(self.terms@, assignment@, j as int, t),
                    decreases ks@.len() - j,
                {
                    let v = self.eval(ks[j], assignment);
                    acc = min_of(acc, v);
                    j = j + 1;
                }
                acc
            },
            NumericTerm::Max(ks) => {
                let mut acc = Number::Val(0);
                let mut j: usize = 0;
                while j < ks.len()
                    invariant
                        0 <= j <= ks@.len(),
                        ks@ == subs,
                        t.key_index() < self.terms@.len(),
                        ordered_numeric(self.terms@),
                        subs == num_subterms(self.terms@[t.key_index() as int]),
                        self.terms@[t.key_index() as int] is Max,
                        forall|i: int| 0 <= i < subs.len() ==> (#[trigger] subs[i]).key_index() < t.key_index(),
                        acc == num_max(self.terms@, assignment@, j as int, t),
                    decreases ks@.len() - j,
                {
                    let v = self.eval(ks[j], assignment);
                    acc = max_of(acc, v);
                    j = j + 1;
                }
                acc
            },
        }
    }

    /// The variables that occur in a term, through its subterms.
    pub fn term_arguments(&self, term_key: T) -> (r: BitSet<V>)
        ensures
            r@ == num_vars(self.term_list(), term_key),
        decreases term_key.key_index(), 1nat,
    {
        proof {
            use_type_invariant(self);
        }
        if term_key.index() >= self.terms.len() {
            return BitSet::new();
        }
        let term = self.terms.get(term_key);
        match term {
            NumericTerm::Const(_) => BitSet::new(),
            NumericTerm::Var(v) => {
                let mut set = BitSet::new();
                proof {
                    assert(self.terms@[term_key.key_index() as int] matches NumericTerm::Var(w) && w == *v);
                }
                set.insert(*v);
                proof {
                    assert(set@ =~= set![v.key_index()]);
                }
                set
            },
            _ => self.subterm_arguments(term_key),
        }
    }

    /// The variables that occur in the subterms of the term of `term_key`.
    fn subterm_arguments(&self, term_key: T) -> (r: BitSet<V>)
        requires
            ordered_numeric(self.terms@),
            term_key.key_index() < self.terms@.len(),
            !(self.terms@[term_key.key_index() as int] is Var),
            !(self.terms@[term_key.key_index() as int] is Const),
        ensures
            r@ == num_vars(self.terms@, term_key),
        decreases term_key.key_index(), 0nat,
    {
        let subs = self.subterm_keys(term_key);
        let mut acc = BitSet::new();
        let mut j: usize = 0;
        while j < subs.len()
            invariant
                0 <= j <= subs@.len(),
                ordered_numeric(self.terms@),
                term_key.key_index() < self.terms@.len(),
                subs@ == num_subterms(self.terms@[term_key.key_index() as int]),
                acc@ == num_subterm_vars(self.terms@, j as int, term_key),
            decreases subs@.len() - j,
        {
            let k = subs[j];
            proof {
                lemma_subterm_before(self.terms@, term_key, j as int);
            }
            let sub = self.term_arguments(k);
            acc.union_with(sub);
            j = j + 1;
        }
        acc
    }

    /// The subterms of the term of a key.
    fn subterm_keys(&self, term_key: T) -> (r: Vec<T>)
        requires
            term_key.key_index() < self.terms@.len(),
        ensures
            r@ == num_subterms(self.terms@[term_key.key_index() as int]),
    {
        match self.terms.get(term_key) {
            NumericTerm::Add(l, r) => vec![*l, *r],
            NumericTerm::Mult(l, r) => vec![*l, *r],
            NumericTerm::Min(ks) => copy_term_keys(ks),
            NumericTerm::Max(ks) => copy_term_keys(ks),
            NumericTerm::Bound { bound, term } => vec![*term],
            _ => Vec::new(),
        }
    }
}

impl<V: Key, T: Key, N> NumericSystem<V, T, N> for NumericSystemImpl<V, T, N> where V: Eq + Hash {
    open spec fn term_of(&self, term_key: T) -> NumericTerm<V, T> {
        if ordered_numeric(self.term_list()) && term_key.key_index() < self.term_list().len() {
            self.term_list()[term_key.key_index() as int]
        } else {
            NumericTerm::Const(Number::Inf)
        }
    }

    open spec fn height(&self, term_key: T) -> nat {
        term_key.key_index() as nat
    }

    open spec fn value_of(&self, term_key: T, assignment: Map<V, Number>) -> Number {
        num_value(self.term_list(), term_key, assignment)
    }

    proof fn lemma_subterms_lower(&self, term_key: T) {
    }

    fn get_term(&self, term_key: T) -> (r: NumericTerm<V, T>) {
        proof {
            use_type_invariant(self);
        }
        if term_key.index() < self.terms.len() {
            self.terms.get(term_key).clone()
        } else {
            NumericTerm::Const(Number::Inf)
        }
    }

    fn evaluate_term(&self, term_key: T, assignment: &HashMap<V, Number>) -> (r: Number) {
        self.eval(term_key, assignment)
    }
}

impl<V: Key + Eq + Hash, T: Key, N> System<V, Number> for NumericSystemImpl<V, T, N> {
    /// The value of the term that defines the variable; infinity for a variable without one.
    open spec fn evaluation(&self, key: V, assignment: Map<V, Number>) -> Number {
        if self.definition_map().contains_key(key.key_index()) {
            num_value(self.term_list(), self.definition_map()[key.key_index()], assignment)
        } else {
            Number::Inf
        }
    }

    fn evaluate(&self, key: V, assignment: &HashMap<V, Number>) -> (r: Number) {
        match self.definitions.get(key) {
            Some(t) => self.eval(*t, assignment),
            None => Number::Inf,
        }
    }

    /// The empty assignment: every variable at the bottom value.
    fn bottom_assignment(&self) -> (r: HashMap<V, Number>)
        ensures
            r@ == Map::<V, Number>::empty(),
    {
        HashMap::new()
    }

    /// The same system, locked or not.
    closed spec fn with_lock(&self, locked: bool) -> Self {
        NumericSystemImpl { names: self.names, definitions: self.definitions, terms: self.terms, locked }
    }

    /// Lock the system; its variables, terms and definitions stay as they are.
    fn lock(&mut self)
        ensures
            final(self).is_locked(),
            final(self).term_list() == old(self).term_list(),
            final(self).definition_map() == old(self).definition_map(),
            final(self).name_list() == old(self).name_list(),
            final(self).name_keys() == old(self).name_keys(),
    {
        proof {
            use_type_invariant(&*self);
        }
        self.locked = true;
    }

    /// Unlock the system; its variables, terms and definitions stay as they are.
    fn unlock(&mut self)
        ensures
            !final(self).is_locked(),
            final(self).term_list() == old(self).term_list(),
            final(self).definition_map() == old(self).definition_map(),
            final(self).name_list() == old(self).name_list(),
            final(self).name_keys() == old(self).name_keys(),
    {
        proof {
            use_type_invariant(&*self);
        }
        self.locked = false;
    }
}

impl<V: Key + Eq + Hash, T: Key, N> TermSystem<V, Number, T> for NumericSystemImpl<V, T, N> {
    /// The term that defines the variable; the first key for a variable without one.
    open spec fn definition_of(&self, variable: V) -> T {
        if self.definition_map().contains_key(variable.key_index()) {
            self.definition_map()[variable.key_index()]
        } else {
            T::key_of(0)
        }
    }

    fn definition(&self, variable: V) -> (r: T) {
        match self.definitions.get(variable) {
            Some(t) => *t,
            None => T::from_index(0),
        }
    }
}

impl<V: Key, T: Key, N> NumericSystemImpl<V, T, N> {
    /// The indices of the variables of the term that defines a variable.
    pub open spec fn argument_indices(self, key: V) -> Set<usize> {
        if self.definition_map().contains_key(key.key_index()) {
            num_vars(self.term_list(), self.definition_map()[key.key_index()])
        } else {
            Set::empty()
        }
    }

    /// The indices of the named variables.
    pub open spec fn variable_indices(self) -> Set<usize> {
        Set::new(|i: usize| i < self.name_list().len())
    }
}

impl<V: Key + Eq + Hash, T: Key, N> Arguments<V, BitSet<V>> for NumericSystemImpl<V, T, N> {
    /// The variables of the term that defines the variable; none for a variable without one.
    closed spec fn argument_set(&self, key: V) -> Set<usize> {
        self.argument_indices(key)
    }

    fn arguments(&self, key: V) -> (r: BitSet<V>) {
        let r = match self.definitions.get(key) {
            Some(t) => self.term_arguments(*t),
            None => BitSet::new(),
        };
        proof {
            assert(r@ == self.argument_indices(key));
        }
        r
    }
}

/// The variable a target term reaches: a variable itself, or the right-most variable of a sum
/// (looking left where the right holds none).
pub open spec fn sum_variable<V, T: Key>(terms: Seq<NumericTerm<V, T>>, t: T) -> Option<V>
    decreases t.key_index(),
{
    if !ordered_numeric(terms) || t.key_index() >= terms.len() {
        None
    } else {
        match terms[t.key_index() as int] {
            NumericTerm::Var(v) => Some(v),
            NumericTerm::Add(l, r) => {
                proof {
                    lemma_subterm_before(terms, t, 0);
                    lemma_subterm_before(terms, t, 1);
                }
                match sum_variable(terms, r) {
                    Some(v) => Some(v),
                    None => sum_variable(terms, l),
                }
            },
            _ => None,
        }
    }
}

/// The weight a target term adds: a constant itself, or the left-most constant of a sum (looking
/// right where the left holds none).
pub open spec fn sum_weight<V, T: Key>(terms: Seq<NumericTerm<V, T>>, t: T) -> Option<Number>
    decreases t.key_index(),
{
    if !ordered_numeric(terms) || t.key_index() >= terms.len() {
        None
    } else {
        match terms[t.key_index() as int] {
            NumericTerm::Const(w) => Some(w),
            NumericTerm::Add(l, r) => {
                proof {
                    lemma_subterm_before(terms, t, 0);
                    lemma_subterm_before(terms, t, 1);
                }
                match sum_weight(terms, l) {
                    Some(w) => Some(w),
                    None => sum_weight(terms, r),
                }
            },
            _ => None,
        }
    }
}

/// The target of a term: its variable with its weight, zero where it adds none; nothing where the
/// term reaches no variable.
pub open spec fn target_of<V, T: Key>(terms: Seq<NumericTerm<V, T>>, t: T) -> Option<(V, Number)> {
    match sum_variable(terms, t) {
        Some(v) => Some(
            (
                v,
                match sum_weight(terms, t) {
                    Some(w) => w,
                    None => Number::Val(0),
                },
            ),
        ),
        None => None,
    }
}

/// The targets of the terms `ks`, where each has one.
pub open spec fn targets_of<V, T: Key>(terms: Seq<NumericTerm<V, T>>, ks: Seq<T>) -> Option<Seq<(V, Number)>>
    decreases ks.len(),
{
    if ks.len() == 0 {
        Some(Seq::empty())
    } else {
        match (targets_of(terms, ks.drop_last()), target_of(terms, ks.last())) {
            (Some(front), Some(last)) => Some(front.push(last)),
            _ => None,
        }
    }
}

/// The hyperedge a term stands for: one target for a variable or a sum, the targets of the terms
/// of a greatest; nothing for any other term or where a target reaches no variable.
pub open spec fn hyperedge_of<V, T: Key>(terms: Seq<NumericTerm<V, T>>, t: T) -> Option<Seq<(V, Number)>> {
    if t.key_index() >= terms.len() {
        None
    } else {
        match terms[t.key_index() as int] {
            NumericTerm::Var(_) | NumericTerm::Add(_, _) => match target_of(terms, t) {
                Some(x) => Some(seq![x]),
                None => None,
            },
            NumericTerm::Max(ks) => targets_of(terms, ks@),
            _ => None,
        }
    }
}

/// The hyperedges of the terms `ks`, where each stands for one.
pub open spec fn hyperedges_of<V, T: Key>(terms: Seq<NumericTerm<V, T>>, ks: Seq<T>) -> Option<Hyperedges<(V, Number)>>
    decreases ks.len(),
{
    if ks.len() == 0 {
        Some(Seq::empty())
    } else {
        match (hyperedges_of(terms, ks.drop_last()), hyperedge_of(terms, ks.last())) {
            (Some(front), Some(last)) => Some(front.push(last)),
            _ => None,
        }
    }
}

/// The hyperedges of the term `t` that defines a variable: none for a constant, one for each term
/// of a least, the one a greatest or a bound stands for; nothing for any other term or where a
/// hyperedge cannot be read.
pub open spec fn definition_hyperedges<V, T: Key>(terms: Seq<NumericTerm<V, T>>, t: T) -> Option<Hyperedges<(V, Number)>> {
    if t.key_index() >= terms.len() {
        None
    } else {
        match terms[t.key_index() as int] {
            NumericTerm::Const(_) => Some(Seq::empty()),
            NumericTerm::Min(ks) => hyperedges_of(terms, ks@),
            NumericTerm::Max(_) => match hyperedge_of(terms, t) {
                Some(e) => Some(seq![e]),
                None => None,
            },
            NumericTerm::Bound { term, .. } => match hyperedge_of(terms, term) {
                Some(e) => Some(seq![e]),
                None => None,
            },
            _ => None,
        }
    }
}

impl<V: Key, T: Key, N> NumericSystemImpl<V, T, N> {
    /// The variable a target term reaches.
    fn sum_variable_at(&self, t: T) -> (r: Option<V>)
        ensures
            r == sum_variable(self.term_list(), t),
        decreases t.key_index(),
    {
        proof {
            use_type_invariant(self);
        }
        match self.term_at(t) {
            None => None,
            Some(term) => match term {
                NumericTerm::Var(v) => Some(*v),
                NumericTerm::Add(l, r) => {
                    proof {
                        lemma_subterm_before(self.term_list(), t, 0);
                        lemma_subterm_before(self.term_list(), t, 1);
                    }
                    match self.sum_variable_at(*r) {
                        Some(v) => Some(v),
                        None => self.sum_variable_at(*l),
                    }
                },
                _ => None,
            },
        }
    }

    /// The weight a target term adds.
    fn sum_weight_at(&self, t: T) -> (r: Option<Number>)
        ensures
            r == sum_weight(self.term_list(), t),
        decreases t.key_index(),
    {
        proof {
            use_type_invariant(self);
        }
        match self.term_at(t) {
            None => None,
            Some(term) => match term {
                NumericTerm::Const(w) => Some(*w),
                NumericTerm::Add(l, r) => {
                    proof {
                        lemma_subterm_before(self.term_list(), t, 0);
                        lemma_subterm_before(self.term_list(), t, 1);
                    }
                    match self.sum_weight_at(*l) {
                        Some(w) => Some(w),
                        None => self.sum_weight_at(*r),
                    }
                },
                _ => None,
            },
        }
    }

    /// The target of a term.
    fn target_at(&self, t: T) -> (r: Option<(V, Number)>)
        ensures
            r == target_of(self.term_list(), t),
    {
        match self.sum_variable_at(t) {
            Some(v) => {
                let w = match self.sum_weight_at(t) {
                    Some(w) => w,
                    None => Number::Val(0),
                };
                Some((v, w))
            },
            None => None,
        }
    }

    /// The targets of the terms `ks`.
    fn targets_at(&self, ks: &Vec<T>) -> (r: Option<Vec<(V, Number)>>)
        ensures
            match r {
                Some(e) => targets_of(self.term_list(), ks@) == Some(e@),
                None => targets_of(self.term_list(), ks@) is None,
            },
    {
        let mut out: Vec<(V, Number)> = Vec::new();
        let mut j: usize = 0;
        while j < ks.len()
            invariant
                0 <= j <= ks@.len(),
                targets_of(self.term_list(), ks@.take(j as int)) == Some(out@),
            decreases ks@.len() - j,
        {
            proof {
                assert(ks@.take(j + 1).drop_last() =~= ks@.take(j as int));
            }
            match self.target_at(ks[j]) {
                Some(x) => {
                    out.push(x);
                },
                None => {
                    proof {
                        lemma_targets_none(self.term_list(), ks@, j as int);
                    }
                    return None;
                },
            }
            j = j + 1;
        }
        proof {
            assert(ks@.take(ks@.len() as int) =~= ks@);
        }
        Some(out)
    }

    /// The hyperedge a term stands for.
    fn hyperedge_at(&self, t: T) -> (r: Option<Vec<(V, Number)>>)
        ensures
            match r {
                Some(e) => hyperedge_of(self.term_list(), t) == Some(e@),
                None => hyperedge_of(self.term_list(), t) is None,
            },
    {
        match self.term_at(t) {
            None => None,
            Some(term) => match term {
                NumericTerm::Var(_) | NumericTerm::Add(_, _) => match self.target_at(t) {
                    Some(x) => {
                        let e = vec![x];
                        proof {
                            assert(e@ =~= seq![x]);
                        }
                        Some(e)
                    },
                    None => None,
                },
                NumericTerm::Max(ks) => self.targets_at(ks),
                _ => None,
            },
        }
    }
}

/// Where the target of term `j` of `ks` reaches no variable, the terms have no targets.
proof fn lemma_targets_none<V, T: Key>(terms: Seq<NumericTerm<V, T>>, ks: Seq<T>, j: int)
    requires
        0 <= j < ks.len(),
        target_of(terms, ks[j]) is None,
    ensures
        targets_of(terms, ks) is None,
    decreases ks.len(),
{
    if j < ks.len() - 1 {
        lemma_targets_none(terms, ks.drop_last(), j);
    }
}

/// Where the hyperedge of term `j` of `ks` cannot be read, the terms have no hyperedges.
proof fn lemma_hyperedges_none<V, T: Key>(terms: Seq<NumericTerm<V, T>>, ks: Seq<T>, j: int)
    requires
        0 <= j < ks.len(),
        hyperedge_of(terms, ks[j]) is None,
    ensures
        hyperedges_of(terms, ks) is None,
    decreases ks.len(),
{
    if j < ks.len() - 1 {
        lemma_hyperedges_none(terms, ks.drop_last(), j);
    }
}

impl<V: Key, T: Key, N> DependencyGraphSystem<V, (V, Number)> for NumericSystemImpl<V, T, N> {
    /// The hyperedges of the term that defines the variable, each target with its weight; nothing
    /// for a variable without a definition, or whose definition is not a constant, a least of
    /// hyperedges, a greatest of targets or a bound of one.
    closed spec fn hyperedges(&self, key: V) -> Option<Hyperedges<(V, Number)>> {
        if self.definition_map().contains_key(key.key_index()) {
            definition_hyperedges(self.term_list(), self.definition_map()[key.key_index()])
        } else {
            None
        }
    }

    fn get_hyperedges(&self, key: V) -> (r: Option<Vec<Vec<(V, Number)>>>) {
        let t = match self.definitions.get(key) {
            Some(t) => *t,
            None => {
                return None;
            },
        };
        let term = match self.term_at(t) {
            Some(term) => term,
            None => {
                return None;
            },
        };
        match term {
            NumericTerm::Const(_) => {
                let edges: Vec<Vec<(V, Number)>> = Vec::new();
                proof {
                    assert(seq_views(edges@) =~= Seq::<Seq<(V, Number)>>::empty());
                }
                Some(edges)
            },
            NumericTerm::Min(ks) => {
                let mut edges: Vec<Vec<(V, Number)>> = Vec::new();
                let mut j: usize = 0;
                proof {
                    assert(self.hyperedges(key) == hyperedges_of(self.term_list(), ks@));
                    assert(seq_views(edges@) =~= Seq::<Seq<(V, Number)>>::empty());
                    assert(ks@.take(0) =~= Seq::<T>::empty());
                }
                while j < ks.len()
                    invariant
                        0 <= j <= ks@.len(),
                        self.hyperedges(key) == hyperedges_of(self.term_list(), ks@),
                        hyperedges_of(self.term_list(), ks@.take(j as int)) == Some(seq_views(edges@)),
                    decreases ks@.len() - j,
                {
                    proof {
                        assert(ks@.take(j + 1).drop_last() =~= ks@.take(j as int));
                    }
                    match self.hyperedge_at(ks[j]) {
                        Some(e) => {
                            let ghost before = edges@;
                            edges.push(e);
                            proof {
                                assert(seq_views(edges@) =~= seq_views(before).push(e@));
                            }
                        },
                        None => {
                            proof {
                                lemma_hyperedges_none(self.term_list(), ks@, j as int);
                            }
                            return None;
                        },
                    }
                    j = j + 1;
                }
                proof {
                    assert(ks@.take(ks@.len() as int) =~= ks@);
                }
                Some(edges)
            },
            NumericTerm::Max(_) => match self.hyperedge_at(t) {
                Some(e) => {
                    let edges = vec![e];
                    proof {
                        assert(seq_views(edges@) =~= seq![e@]);
                    }
                    Some(edges)
                },
                None => None,
            },
            NumericTerm::Bound { term, .. } => match self.hyperedge_at(*term) {
                Some(e) => {
                    let edges = vec![e];
                    proof {
                        assert(seq_views(edges@) =~= seq![e@]);
                    }
                    Some(edges)
                },
                None => None,
            },
            _ => None,
        }
    }
}

impl<V: Key, T: Key, N> Universe<BitSet<V>> for NumericSystemImpl<V, T, N> {
    /// Every named variable.
    closed spec fn universe_set(&self) -> Set<usize> {
        self.variable_indices()
    }

    fn universe(&self) -> (r: BitSet<V>) {
        let r = BitSet::full(self.names.len());
        proof {
            assert(r@ == self.variable_indices());
        }
        r
    }
}

impl<V: Key, T: Key, N> PairUniverse<BitsetRelation<V, V>> for NumericSystemImpl<V, T, N> {
    /// Every pair of named variables.
    closed spec fn pair_universe_set(&self) -> Set<(usize, usize)> {
        Set::new(|p: (usize, usize)| self.variable_indices().contains(p.0) && self.variable_indices().contains(p.1))
    }

    fn pair_universe(&self) -> (r: BitsetRelation<V, V>) {
        let all: BitSet<V> = BitSet::full(self.names.len());
        let r = all.cartesian(&all);
        proof {
            assert(r@ =~= Set::new(|p: (usize, usize)| self.variable_indices().contains(p.0) && self.variable_indices().contains(p.1)));
        }
        r
    }
}

impl<V: Key, T: Key, N> Visited<BitSet<V>> for NumericSystemImpl<V, T, N> {
    /// The defined variables.
    closed spec fn visited_set(&self) -> Set<usize> {
        self.definition_map().dom()
    }

    fn visited(&self) -> (r: BitSet<V>) {
        proof {
            use_type_invariant(self);
        }
        let keys = self.definitions.keys();
        let mut r = BitSet::new();
        let mut j: usize = 0;
        while j < keys.len()
            invariant
                0 <= j <= keys@.len(),
                forall|i: usize| #[trigger] self.definitions@.contains_key(i) ==> i < usize::MAX,
                forall|i: int| 0 <= i < keys@.len() ==> self.definitions@.contains_key((#[trigger] keys@[i]).key_index()),
                r@ == Set::new(|x: usize| exists|i: int| 0 <= i < j && (#[trigger] keys@[i]).key_index() == x),
            decreases keys@.len() - j,
        {
            let k = keys[j];
            proof {
                assert(self.definitions@.contains_key(keys@[j as int].key_index()));
            }
            r.insert(k);
            proof {
                assert forall|x: usize| r@.contains(x) == (exists|i: int| 0 <= i < j + 1 && (#[trigger] keys@[i]).key_index() == x) by {
                    if x == k.key_index() {
                        assert(keys@[j as int].key_index() == x);
                    }
                }
                assert(r@ =~= Set::new(|x: usize| exists|i: int| 0 <= i < j + 1 && (#[trigger] keys@[i]).key_index() == x));
            }
            j = j + 1;
        }
        proof {
            assert(r@ =~= self.definition_map().dom());
        }
        r
    }
}

/// The character of a decimal digit.
pub open spec fn digit_char(d: nat) -> char {
    if d == 0 {
        '0'
    } else if d == 1 {
        '1'
    } else if d == 2 {
        '2'
    } else if d == 3 {
        '3'
    } else if d == 4 {
        '4'
    } else if d == 5 {
        '5'
    } else if d == 6 {
        '6'
    } else if d == 7 {
        '7'
    } else if d == 8 {
        '8'
    } else {
        '9'
    }
}

/// The decimal digits of a number, most significant first.
pub open spec fn decimal(n: nat) -> Seq<char>
    decreases n,
{
    if n < 10 {
        seq![digit_char(n)]
    } else {
        decimal(n / 10).push(digit_char(n % 10))
    }
}

/// The text of a number: its decimal digits, or `inf`.
pub open spec fn number_text(n: Number) -> Seq<char> {
    match n {
        Number::Val(x) => decimal(x as nat),
        Number::Inf => seq!['i', 'n', 'f'],
    }
}

/// The text of the term of `t` among `terms`, with `names` for the variables.
pub open spec fn num_term_text<V: Key, T: Key>(terms: Seq<NumericTerm<V, T>>, names: Seq<Seq<char>>, t: T) -> Seq<char>
    decreases t.key_index() + 1, 0int, 0int,
{
    if t.key_index() >= terms.len() {
        Seq::empty()
    } else {
        num_shape_text(terms, names, terms[t.key_index() as int], t.key_index() as int)
    }
}

/// The text of a subterm below `bound`; nothing for one that is not.
pub open spec fn num_sub_text<V: Key, T: Key>(terms: Seq<NumericTerm<V, T>>, names: Seq<Seq<char>>, k: T, bound: int) -> Seq<char>
    decreases bound, 0int, 1int,
{
    if k.key_index() < bound {
        num_term_text(terms, names, k)
    } else {
        Seq::empty()
    }
}

/// The text of a term whose subterms are below `bound`: `(a + b)`, `(a * b)`, `min(..)` and
/// `max(..)` over the texts of the keys separated by commas, and `(bound: b, term: t)`.
pub open spec fn num_shape_text<V: Key, T: Key>(
    terms: Seq<NumericTerm<V, T>>,
    names: Seq<Seq<char>>,
    term: NumericTerm<V, T>,
    bound: int,
) -> Seq<char>
    decreases bound, 1int, 0int,
{
    match term {
        NumericTerm::Const(n) => number_text(n),
        NumericTerm::Var(v) => if v.key_index() < names.len() {
            names[v.key_index() as int]
        } else {
            Seq::empty()
        },
        NumericTerm::Add(l, r) => seq!['('] + num_sub_text(terms, names, l, bound) + seq![' ', '+', ' '] + num_sub_text(
            terms,
            names,
            r,
            bound,
        ) + seq![')'],
        NumericTerm::Mult(l, r) => seq!['('] + num_sub_text(terms, names, l, bound) + seq![' ', '*', ' '] + num_sub_text(
            terms,
            names,
            r,
            bound,
        ) + seq![')'],
        NumericTerm::Min(ks) => seq!['m', 'i', 'n', '('] + num_keys_text(terms, names, ks@, bound) + seq![')'],
        NumericTerm::Max(ks) => seq!['m', 'a', 'x', '('] + num_keys_text(terms, names, ks@, bound) + seq![')'],
        NumericTerm::Bound { bound: b, term: inner } => seq!['(', 'b', 'o', 'u', 'n', 'd', ':', ' '] + number_text(b) + seq![
            ',',
            ' ',
            't',
            'e',
            'r',
            'm',
            ':',
            ' ',
        ] + num_sub_text(terms, names, inner, bound) + seq![')'],
    }
}

/// The texts of the terms of `ks` below `bound`, separated by commas.
pub open spec fn num_keys_text<V: Key, T: Key>(terms: Seq<NumericTerm<V, T>>, names: Seq<Seq<char>>, ks: Seq<T>, bound: int) -> Seq<
    char,
>
    decreases bound, 0int, ks.len() + 2,
{
    if ks.len() == 0 {
        Seq::empty()
    } else if ks.len() == 1 {
        num_sub_text(terms, names, ks.last(), bound)
    } else {
        num_keys_text(terms, names, ks.drop_last(), bound) + seq![',', ' '] + num_sub_text(terms, names, ks.last(), bound)
    }
}

/// The text of one decimal digit.
fn digit_str(d: u32) -> (r: &'static str)
    requires
        d < 10,
    ensures
        r@ == seq![digit_char(d as nat)],
{
    if d == 0 {
        proof { reveal_strlit("0"); }
        "0"
    } else if d == 1 {
        proof { reveal_strlit("1"); }
        "1"
    } else if d == 2 {
        proof { reveal_strlit("2"); }
        "2"
    } else if d == 3 {
        proof { reveal_strlit("3"); }
        "3"
    } else if d == 4 {
        proof { reveal_strlit("4"); }
        "4"
    } else if d == 5 {
        proof { reveal_strlit("5"); }
        "5"
    } else if d == 6 {
        proof { reveal_strlit("6"); }
        "6"
    } else if d == 7 {
        proof { reveal_strlit("7"); }
        "7"
    } else if d == 8 {
        proof { reveal_strlit("8"); }
        "8"
    } else {
        proof { reveal_strlit("9"); }
        "9"
    }
}

/// Append the decimal digits of `n`.
fn push_decimal(text: &mut String, n: u32)
    ensures
        final(text)@ == old(text)@ + decimal(n as nat),
    decreases n,
{
    if n >= 10 {
        push_decimal(text, n / 10);
    }
    text.append(digit_str(n % 10));
    proof {
        if n >= 10 {
            assert(decimal(n as nat) == decimal((n / 10) as nat).push(digit_char((n % 10) as nat)));
        }
    }
}

/// Append the text of a number.
fn push_number(text: &mut String, n: Number)
    ensures
        final(text)@ == old(text)@ + number_text(n),
{
    match n {
        Number::Val(x) => push_decimal(text, x),
        Number::Inf => {
            text.append("inf");
            proof {
                reveal_strlit("inf");
            }
        },
    }
}

impl<'a, V: Key, T: Key> NumericSystemImpl<V, T, &'a str> {
    /// Append the text of a subterm below `bound`.
    fn push_sub(&self, text: &mut String, k: T, bound: usize)
        requires
            k.key_index() < bound <= self.terms@.len(),
        ensures
            final(text)@ == old(text)@ + num_sub_text(self.terms@, name_texts(self.names.values()), k, bound as int),
        decreases bound, 0nat,
    {
        proof {
            use_type_invariant(self);
        }
        let ki = k.index();
        proof {
            assert forall|i: int| 0 <= i < num_subterms(self.terms@[ki as int]).len() implies (#[trigger] num_subterms(
                self.terms@[ki as int],
            )[i]).key_index() < ki by {
                lemma_subterm_before(self.terms@, k, i);
            }
        }
        let part = self.shape_to_string(self.terms.get(k), ki);
        text.append(part.as_str());
    }

    /// The text of a term whose subterms are below `bound`.
    fn shape_to_string(&self, term: &NumericTerm<V, T>, bound: usize) -> (r: String)
        requires
            bound <= self.terms@.len(),
            forall|j: int| 0 <= j < num_subterms(*term).len() ==> (#[trigger] num_subterms(*term)[j]).key_index() < bound,
            term matches NumericTerm::Var(v) ==> v.key_index() < self.names.values().len(),
        ensures
            r@ == num_shape_text(self.terms@, name_texts(self.names.values()), *term, bound as int),
        decreases bound, 2nat,
    {
        let ghost names = name_texts(self.names.values());
        let mut text = String::new();
        match term {
            NumericTerm::Const(n) => {
                push_number(&mut text, *n);
            },
            NumericTerm::Var(v) => {
                text.append(*self.names.get_value(*v));
            },
            NumericTerm::Add(l, r) => {
                proof {
                    assert(num_subterms(*term)[0] == *l && num_subterms(*term)[1] == *r);
                }
                text.append("(");
                self.push_sub(&mut text, *l, bound);
                text.append(" + ");
                self.push_sub(&mut text, *r, bound);
                text.append(")");
                proof {
                    reveal_strlit("(");
                    reveal_strlit(" + ");
                    reveal_strlit(")");
                }
            },
            NumericTerm::Mult(l, r) => {
                proof {
                    assert(num_subterms(*term)[0] == *l && num_subterms(*term)[1] == *r);
                }
                text.append("(");
                self.push_sub(&mut text, *l, bound);
                text.append(" * ");
                self.push_sub(&mut text, *r, bound);
                text.append(")");
                proof {
                    reveal_strlit("(");
                    reveal_strlit(" * ");
                    reveal_strlit(")");
                }
            },
            NumericTerm::Min(ks) => {
                proof {
                    assert forall|j: int| 0 <= j < ks@.len() implies (#[trigger] ks@[j]).key_index() < bound by {
                        assert(num_subterms(*term)[j] == ks@[j]);
                    }
                }
                text.append("min(");
                self.push_keys(&mut text, ks, bound);
                text.append(")");
                proof {
                    reveal_strlit("min(");
                    reveal_strlit(")");
                }
            },
            NumericTerm::Max(ks) => {
                proof {
                    assert forall|j: int| 0 <= j < ks@.len() implies (#[trigger] ks@[j]).key_index() < bound by {
                        assert(num_subterms(*term)[j] == ks@[j]);
                    }
                }
                text.append("max(");
                self.push_keys(&mut text, ks, bound);
                text.append(")");
                proof {
                    reveal_strlit("max(");
                    reveal_strlit(")");
                }
            },
            NumericTerm::Bound { bound: b, term: inner } => {
                proof {
                    assert(num_subterms(*term)[0] == *inner);
                }
                text.append("(bound: ");
                push_number(&mut text, *b);
                text.append(", term: ");
                self.push_sub(&mut text, *inner, bound);
                text.append(")");
                proof {
                    reveal_strlit("(bound: ");
                    reveal_strlit(", term: ");
                    reveal_strlit(")");
                }
            },
        }
        text
    }

    /// Append the texts of the terms of `ks`, separated by commas.
    fn push_keys(&self, text: &mut String, ks: &Vec<T>, bound: usize)
        requires
            bound <= self.terms@.len(),
            forall|j: int| 0 <= j < ks@.len() ==> (#[trigger] ks@[j]).key_index() < bound,
        ensures
            final(text)@ == old(text)@ + num_keys_text(self.terms@, name_texts(self.names.values()), ks@, bound as int),
        decreases bound, 1nat,
    {
        let ghost names = name_texts(self.names.values());
        let ghost start = text@;
        let mut j: usize = 0;
        while j < ks.len()
            invariant
                0 <= j <= ks@.len(),
                bound <= self.terms@.len(),
                names == name_texts(self.names.values()),
                forall|i: int| 0 <= i < ks@.len() ==> (#[trigger] ks@[i]).key_index() < bound,
                text@ == start + num_keys_text(self.terms@, names, ks@.take(j as int), bound as int),
            decreases ks@.len() - j,
        {
            let k = ks[j];
            proof {
                assert(ks@[j as int].key_index() < bound);
                assert(ks@.take(j + 1).drop_last() =~= ks@.take(j as int));
                assert(ks@.take(j + 1).last() == k);
            }
            if j > 0 {
                text.append(", ");
                proof {
                    reveal_strlit(", ");
                }
            }
            self.push_sub(text, k, bound);
            proof {
                assert(text@ =~= start + num_keys_text(self.terms@, names, ks@.take(j + 1), bound as int));
            }
            j = j + 1;
        }
        proof {
            assert(ks@.take(ks@.len() as int) =~= ks@);
        }
    }
}

impl<V: Key, T: Key> NumericTerm<V, T> {
    /// The term as text: numbers in decimal or `inf`, the name of a variable, `(a + b)`,
    /// `(a * b)`, `min(..)` and `max(..)` over the texts of the keys separated by commas, and
    /// `(bound: b, term: t)`.
    pub fn to_string<'a>(&self, sys: &NumericSystemImpl<V, T, &'a str>) -> (r: String)
        requires
            forall|j: int| 0 <= j < num_subterms(*self).len() ==> (#[trigger] num_subterms(*self)[j]).key_index() < sys.term_list().len(),
            *self matches NumericTerm::Var(v) ==> v.key_index() < sys.name_list().len(),
        ensures
            r@ == num_shape_text(sys.term_list(), name_texts(sys.name_list()), *self, sys.term_list().len() as int),
    {
        let bound = sys.terms.len();
        sys.shape_to_string(self, bound)
    }
}

/// Evaluation in a numeric system is monotone in the order of numbers, and infinity, the bottom
/// value, is greatest, and the order is antisymmetric: local Kleene iteration on a numeric system
/// descends from infinity and gives a value at or above that of every fixed point.
pub proof fn lemma_numeric_system_monotone<V: Key + Eq + Hash, T: Key, N>(system: NumericSystemImpl<V, T, N>)
    ensures
        monotone(system),
        bottom_greatest::<Number>(),
        order_antisymmetric::<Number>(),
{
    assert forall|k: V, lower: Map<V, Number>, upper: Map<V, Number>|
        #![trigger system.evaluation(k, lower), system.evaluation(k, upper)]
        assignment_below(lower, upper) implies at_most(system.evaluation(k, lower), system.evaluation(k, upper)) by {
        assert forall|v: V| #[trigger] number_le(assigned_value(lower, v), assigned_value(upper, v)) by {
            assert(at_most(assigned_value(lower, v), assigned_value(upper, v)));
        }
        if system.definition_map().contains_key(k.key_index()) {
            lemma_num_value_monotone(system.term_list(), system.definition_map()[k.key_index()], lower, upper);
        }
    }
}

/// After passes of an oracle, each made locked and followed by unlocking, the system is unlocked,
/// with its variables, terms and definitions as they were.
pub proof fn lemma_after_passes_unlocked<V: Key + Eq + Hash, T: Key, N>(system: NumericSystemImpl<V, T, N>, n: nat)
    ensures
        n > 0 ==> !after_passes::<V, Number, NumericSystemImpl<V, T, N>>(system, n).is_locked(),
        after_passes::<V, Number, NumericSystemImpl<V, T, N>>(system, n).term_list() == system.term_list(),
        after_passes::<V, Number, NumericSystemImpl<V, T, N>>(system, n).definition_map() == system.definition_map(),
        after_passes::<V, Number, NumericSystemImpl<V, T, N>>(system, n).name_list() == system.name_list(),
    decreases n,
{
    if n > 0 {
        lemma_after_passes_unlocked(system, (n - 1) as nat);
    }
}

/// The constants of the sum at `t`, left to right: a constant is itself, a sum has those of its
/// left operand followed by those of its right, and any other term has none.
pub open spec fn sum_constants<V, T: Key>(terms: Seq<NumericTerm<V, T>>, t: T) -> Seq<Number>
    decreases t.key_index(),
{
    if !ordered_numeric(terms) || t.key_index() >= terms.len() {
        Seq::empty()
    } else {
        match terms[t.key_index() as int] {
            NumericTerm::Const(w) => seq![w],
            NumericTerm::Add(l, r) => {
                proof {
                    lemma_subterm_before(terms, t, 0);
                    lemma_subterm_before(terms, t, 1);
                }
                sum_constants(terms, l) + sum_constants(terms, r)
            },
            _ => Seq::empty(),
        }
    }
}

/// The weight of a sum is its left-most constant, on whichever side of the sum it stands, and there
/// is none where the sum holds no constant; the target of a term carries that weight, or zero.
pub proof fn lemma_sum_weight_leftmost<V, T: Key>(terms: Seq<NumericTerm<V, T>>, t: T)
    ensures
        sum_constants(terms, t).len() > 0 ==> sum_weight(terms, t) == Some(sum_constants(terms, t)[0]),
        sum_constants(terms, t).len() == 0 ==> sum_weight(terms, t) is None,
        target_of(terms, t) matches Some((_, w)) ==> w == (if sum_constants(terms, t).len() > 0 {
            sum_constants(terms, t)[0]
        } else {
            Number::Val(0)
        }),
    decreases t.key_index(),
{
    if ordered_numeric(terms) && t.key_index() < terms.len() {
        match terms[t.key_index() as int] {
            NumericTerm::Add(l, r) => {
                lemma_subterm_before(terms, t, 0);
                lemma_subterm_before(terms, t, 1);
                lemma_sum_weight_leftmost(terms, l);
                lemma_sum_weight_leftmost(terms, r);
                let cl = sum_constants(terms, l);
                let cr = sum_constants(terms, r);
                assert(sum_constants(terms, t) == cl + cr);
                if cl.len() > 0 {
                    assert((cl + cr)[0] == cl[0]);
                } else if cr.len() > 0 {
                    assert((cl + cr)[0] == cr[0]);
                }
            },
            _ => {},
        }
    }
}

} // verus!
