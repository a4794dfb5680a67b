use std::collections::HashMap;

use radguy::boolean::{BoolSystem, BoolSystemImpl, BoolTerm};
use radguy::extension::TermSystem;
use radguy::{Arguments, PairUniverse, SetOps, System, Universe};

type Sys = BoolSystemImpl<usize, usize, &'static str>;

fn tt(sys: &mut Sys) -> usize {
    sys.term(BoolTerm::True)
}

fn ff(sys: &mut Sys) -> usize {
    sys.term(BoolTerm::False)
}

fn var(sys: &mut Sys, name: &'static str) -> usize {
    let v = sys.variable(name);
    sys.term(BoolTerm::Variable(v))
}

fn or(sys: &mut Sys, a: usize, b: usize) -> usize {
    sys.term(BoolTerm::Or(vec![a, b]))
}

fn and(sys: &mut Sys, a: usize, b: usize) -> usize {
    sys.term(BoolTerm::And(vec![a, b]))
}

fn def(sys: &mut Sys, name: &'static str, term: usize) {
    let v = sys.variable(name);
    sys.define(v, term);
}

fn text_of(sys: &Sys, term: usize) -> String {
    sys.term_at(term).unwrap().to_string(sys)
}

/// x = (z || y); z = (k && b); y = ((z || x) && (k && a)); k = tt; b = a; a = tt;
/// h = (((z || x) && k) && a)
fn and_or_system() -> Sys {
    let mut sys = Sys::new();
    let z = var(&mut sys, "z");
    let y = var(&mut sys, "y");
    let t = or(&mut sys, z, y);
    def(&mut sys, "x", t);
    let k = var(&mut sys, "k");
    let b = var(&mut sys, "b");
    let t = and(&mut sys, k, b);
    def(&mut sys, "z", t);
    let z = var(&mut sys, "z");
    let x = var(&mut sys, "x");
    let zx = or(&mut sys, z, x);
    let k = var(&mut sys, "k");
    let a = var(&mut sys, "a");
    let ka = and(&mut sys, k, a);
    let t = and(&mut sys, zx, ka);
    def(&mut sys, "y", t);
    let t = tt(&mut sys);
    def(&mut sys, "k", t);
    let t = var(&mut sys, "a");
    def(&mut sys, "b", t);
    let t = tt(&mut sys);
    def(&mut sys, "a", t);
    let z = var(&mut sys, "z");
    let x = var(&mut sys, "x");
    let zx = or(&mut sys, z, x);
    let k = var(&mut sys, "k");
    let zxk = and(&mut sys, zx, k);
    let a = var(&mut sys, "a");
    let t = and(&mut sys, zxk, a);
    def(&mut sys, "h", t);
    sys
}

#[test]
fn bool_system_and_or() {
    let sys = and_or_system();
    for (key, term) in sys.definitions() {
        let name = *sys.name_of(key);
        match name {
            "x" => assert_eq!(text_of(&sys, term), "or(z, y)"),
            "z" => assert_eq!(text_of(&sys, term), "and(k, b)"),
            "y" => assert_eq!(text_of(&sys, term), "and(or(z, x), and(k, a))"),
            "k" | "a" => assert_eq!(text_of(&sys, term), "tt"),
            "b" => assert_eq!(text_of(&sys, term), "a"),
            "h" => assert_eq!(text_of(&sys, term), "and(and(or(z, x), k), a)"),
            _ => panic!("{name} not found"),
        }
    }
}

#[test]
fn bool_system_variables() {
    let mut sys = Sys::new();
    let t = var(&mut sys, "z");
    def(&mut sys, "x", t);
    let t = var(&mut sys, "y");
    def(&mut sys, "z", t);
    let t = tt(&mut sys);
    def(&mut sys, "y", t);
    for (key, term) in sys.definitions() {
        let name = *sys.name_of(key);
        match name {
            "x" => assert_eq!(text_of(&sys, term), "z"),
            "z" => assert_eq!(text_of(&sys, term), "y"),
            "y" => assert_eq!(text_of(&sys, term), "tt"),
            _ => panic!("{name} not found"),
        }
    }
}

#[test]
fn bool_system_tt_ff() {
    let mut sys = Sys::new();
    let t = tt(&mut sys);
    def(&mut sys, "x", t);
    let t = ff(&mut sys);
    def(&mut sys, "y", t);
    let t = tt(&mut sys);
    def(&mut sys, "z", t);
    for (key, term) in sys.definitions() {
        let name = *sys.name_of(key);
        match name {
            "x" | "z" => assert_eq!(text_of(&sys, term), "tt"),
            "y" => assert_eq!(text_of(&sys, term), "ff"),
            _ => panic!("{name} not found"),
        }
    }
}

#[test]
fn bool_system_evaluate_const() {
    let mut sys = Sys::new();
    let t = tt(&mut sys);
    def(&mut sys, "x", t);
    let t = ff(&mut sys);
    def(&mut sys, "y", t);
    let x = sys.variable("x");
    let y = sys.variable("y");
    assert!(sys.evaluate(x, &HashMap::new()));
    assert!(!sys.evaluate(y, &HashMap::new()));
}

#[test]
fn bool_system_evaluate_var() {
    let mut sys = Sys::new();
    let t = var(&mut sys, "y");
    def(&mut sys, "x", t);
    let t = tt(&mut sys);
    def(&mut sys, "y", t);
    let t = var(&mut sys, "k");
    def(&mut sys, "z", t);
    let t = ff(&mut sys);
    def(&mut sys, "k", t);
    let x = sys.variable("x");
    let y = sys.variable("y");
    let z = sys.variable("z");
    let k = sys.variable("k");
    let mut map = HashMap::new();
    map.insert(y, true);
    map.insert(k, false);
    assert!(sys.evaluate(x, &map));
    assert!(!sys.evaluate(z, &map));
}

/// Defines `name` as `lhs && rhs` (or `lhs || rhs`) over constants.
fn def_constants(sys: &mut Sys, name: &'static str, lhs: bool, rhs: bool, conjunction: bool) {
    let a = if lhs { tt(sys) } else { ff(sys) };
    let b = if rhs { tt(sys) } else { ff(sys) };
    let t = if conjunction { and(sys, a, b) } else { or(sys, a, b) };
    def(sys, name, t);
}

#[test]
fn bool_system_evaluate_and() {
    let mut sys = Sys::new();
    def_constants(&mut sys, "x", true, true, true);
    def_constants(&mut sys, "y", false, true, true);
    def_constants(&mut sys, "z", true, false, true);
    def_constants(&mut sys, "k", false, false, true);
    let x = sys.variable("x");
    let y = sys.variable("y");
    let z = sys.variable("z");
    let k = sys.variable("k");
    assert!(sys.evaluate(x, &HashMap::new()));
    assert!(!sys.evaluate(y, &HashMap::new()));
    assert!(!sys.evaluate(z, &HashMap::new()));
    assert!(!sys.evaluate(k, &HashMap::new()));
}

#[test]
fn bool_system_evaluate_or() {
    let mut sys = Sys::new();
    def_constants(&mut sys, "x", true, true, false);
    def_constants(&mut sys, "y", false, true, false);
    def_constants(&mut sys, "z", true, false, false);
    def_constants(&mut sys, "k", false, false, false);
    let x = sys.variable("x");
    let y = sys.variable("y");
    let z = sys.variable("z");
    let k = sys.variable("k");
    assert!(sys.evaluate(x, &HashMap::new()));
    assert!(sys.evaluate(y, &HashMap::new()));
    assert!(sys.evaluate(z, &HashMap::new()));
    assert!(!sys.evaluate(k, &HashMap::new()));
}

#[test]
fn bool_system_evaluate() {
    // x = (z || y); y = (k && a); z = ((z || x) && (k && a)); k = tt; b = a; a = tt;
    // h = (((z || x) && k) && a)
    let mut sys = Sys::new();
    let z = var(&mut sys, "z");
    let y = var(&mut sys, "y");
    let t = or(&mut sys, z, y);
    def(&mut sys, "x", t);
    let k = var(&mut sys, "k");
    let a = var(&mut sys, "a");
    let t = and(&mut sys, k, a);
    def(&mut sys, "y", t);
    let z = var(&mut sys, "z");
    let x = var(&mut sys, "x");
    let zx = or(&mut sys, z, x);
    let k = var(&mut sys, "k");
    let a = var(&mut sys, "a");
    let ka = and(&mut sys, k, a);
    let t = and(&mut sys, zx, ka);
    def(&mut sys, "z", t);
    let t = tt(&mut sys);
    def(&mut sys, "k", t);
    let t = var(&mut sys, "a");
    def(&mut sys, "b", t);
    let t = tt(&mut sys);
    def(&mut sys, "a", t);
    let z = var(&mut sys, "z");
    let x = var(&mut sys, "x");
    let zx = or(&mut sys, z, x);
    let k = var(&mut sys, "k");
    let zxk = and(&mut sys, zx, k);
    let a = var(&mut sys, "a");
    let t = and(&mut sys, zxk, a);
    def(&mut sys, "h", t);
    let x = sys.variable("x");
    let y = sys.variable("y");
    let z = sys.variable("z");
    let k = sys.variable("k");
    let b = sys.variable("b");
    let a = sys.variable("a");
    let h = sys.variable("h");
    let mut map = HashMap::new();
    map.insert(x, false);
    map.insert(z, false);
    map.insert(k, true);
    map.insert(b, false);
    map.insert(a, true);
    assert!(!sys.evaluate(x, &map));
    assert!(sys.evaluate(y, &map));
    assert!(!sys.evaluate(z, &map));
    assert!(sys.evaluate(k, &map));
    assert!(sys.evaluate(b, &map));
    assert!(sys.evaluate(a, &map));
    assert!(!sys.evaluate(h, &map));
}

#[test]
fn bool_terms_are_shared_by_shape() {
    let mut sys = Sys::new();
    let a = tt(&mut sys);
    let b = tt(&mut sys);
    assert_eq!(a, b);
    let x = var(&mut sys, "x");
    let y = var(&mut sys, "x");
    assert_eq!(x, y);
    let o1 = or(&mut sys, a, x);
    let o2 = or(&mut sys, a, x);
    let o3 = or(&mut sys, x, a);
    assert_eq!(o1, o2);
    assert_ne!(o1, o3);
    assert_eq!(sys.variable_count(), 1);
}

#[test]
fn bool_system_arguments_and_universe() {
    let sys = and_or_system();
    let mut copy = sys;
    let x = copy.variable("x");
    let y = copy.variable("y");
    let z = copy.variable("z");
    let k = copy.variable("k");
    let a = copy.variable("a");
    let b = copy.variable("b");
    // y = ((z || x) && (k && a))
    let args = copy.arguments(y);
    let mut keys = args.keys();
    keys.sort();
    let mut expected = vec![z, x, k, a];
    expected.sort();
    assert_eq!(keys, expected);
    // b = a
    assert_eq!(copy.arguments(b).keys(), vec![a]);
    // k = tt
    assert!(copy.arguments(k).keys().is_empty());
    assert_eq!(copy.universe().keys().len(), copy.variable_count());
    let n = copy.variable_count();
    assert_eq!(copy.pair_universe().len(), n * n);
    let term = copy.definition(x);
    assert_eq!(copy.term_arguments(term).keys().len(), 2);
    assert!(matches!(copy.get_term(term), BoolTerm::Or(_)));
}

#[test]
fn bool_system_undefined_variable_is_false() {
    let mut sys = Sys::new();
    let x = sys.variable("x");
    assert!(!sys.evaluate(x, &HashMap::new()));
    assert!(sys.arguments(x).keys().is_empty());
}

use radguy::kleene::kleene_local;
use radguy::oracle::{CombineLocal, SMax, TrivialOracle};

/// Builds a system from definitions over variables and constants: `("x", Or, ["y", "z"])`.
#[derive(Clone, Copy)]
enum Shape {
    Tt,
    Ff,
    Var,
    Or,
    And,
}

fn term_of(sys: &mut Sys, shape: Shape, args: &[usize]) -> usize {
    match shape {
        Shape::Tt => tt(sys),
        Shape::Ff => ff(sys),
        Shape::Var => args[0],
        Shape::Or => or(sys, args[0], args[1]),
        Shape::And => and(sys, args[0], args[1]),
    }
}

fn solve(sys: &mut Sys, target: &'static str) -> bool {
    let start = sys.variable(target);
    kleene_local(sys, start, &SMax::bitset()).unwrap().0
}

#[test]
fn test_kleene_local_smax_ff_tt() {
    let mut sys1 = Sys::new();
    let t = tt(&mut sys1);
    def(&mut sys1, "x", t);
    assert!(solve(&mut sys1, "x"));
    let mut sys2 = Sys::new();
    let t = ff(&mut sys2);
    def(&mut sys2, "x", t);
    assert!(!solve(&mut sys2, "x"));
}

/// x = (y op z); y = a; z = b
fn binary(conjunction: bool, y: bool, z: bool) -> Sys {
    let mut sys = Sys::new();
    let vy = var(&mut sys, "y");
    let vz = var(&mut sys, "z");
    let t = term_of(&mut sys, if conjunction { Shape::And } else { Shape::Or }, &[vy, vz]);
    def(&mut sys, "x", t);
    let t = term_of(&mut sys, if y { Shape::Tt } else { Shape::Ff }, &[]);
    def(&mut sys, "y", t);
    let t = term_of(&mut sys, if z { Shape::Tt } else { Shape::Ff }, &[]);
    def(&mut sys, "z", t);
    sys
}

#[test]
fn test_kleene_local_smax_and() {
    assert!(solve(&mut binary(true, true, true), "x"));
    assert!(!solve(&mut binary(true, true, false), "x"));
    assert!(!solve(&mut binary(true, false, false), "x"));
}

#[test]
fn test_kleene_local_smax_or() {
    assert!(solve(&mut binary(false, true, true), "x"));
    assert!(solve(&mut binary(false, true, false), "x"));
    assert!(!solve(&mut binary(false, false, false), "x"));
}

/// y = ff; z = ff; k = tt; j = tt
fn define_constants(sys: &mut Sys) {
    for (name, value) in [("y", false), ("z", false), ("k", true), ("j", true)] {
        let t = if value { tt(sys) } else { ff(sys) };
        def(sys, name, t);
    }
}

#[test]
fn test_kleene_local_smax_parentheses() {
    // x = ((y || z) && (k || j))
    let mut sys1 = Sys::new();
    let y = var(&mut sys1, "y");
    let z = var(&mut sys1, "z");
    let yz = or(&mut sys1, y, z);
    let k = var(&mut sys1, "k");
    let j = var(&mut sys1, "j");
    let kj = or(&mut sys1, k, j);
    let t = and(&mut sys1, yz, kj);
    def(&mut sys1, "x", t);
    define_constants(&mut sys1);
    let first = solve(&mut sys1, "x");
    assert!(!first);
    // x = (((y || z) && k) || j)
    let mut sys2 = Sys::new();
    let y = var(&mut sys2, "y");
    let z = var(&mut sys2, "z");
    let yz = or(&mut sys2, y, z);
    let k = var(&mut sys2, "k");
    let yzk = and(&mut sys2, yz, k);
    let j = var(&mut sys2, "j");
    let t = or(&mut sys2, yzk, j);
    def(&mut sys2, "x", t);
    define_constants(&mut sys2);
    let second = solve(&mut sys2, "x");
    assert!(second);
    assert_ne!(first, second);
}

/// The system of thirteen variables with their least fixed point.
fn thirteen() -> (Sys, Vec<(&'static str, bool)>) {
    let mut sys = Sys::new();
    // x = (((y || z) && k) || j)
    let y = var(&mut sys, "y");
    let z = var(&mut sys, "z");
    let yz = or(&mut sys, y, z);
    let k = var(&mut sys, "k");
    let yzk = and(&mut sys, yz, k);
    let j = var(&mut sys, "j");
    let t = or(&mut sys, yzk, j);
    def(&mut sys, "x", t);
    // y = ((x || j) || (z && k))
    let x = var(&mut sys, "x");
    let xj = or(&mut sys, x, j);
    let zk = and(&mut sys, z, k);
    let t = or(&mut sys, xj, zk);
    def(&mut sys, "y", t);
    // z = (((a || b) || (c && d)) || ((e || f) && (g && h)))
    let a = var(&mut sys, "a");
    let b = var(&mut sys, "b");
    let c = var(&mut sys, "c");
    let d = var(&mut sys, "d");
    let e = var(&mut sys, "e");
    let f = var(&mut sys, "f");
    let g = var(&mut sys, "g");
    let h = var(&mut sys, "h");
    let ab = or(&mut sys, a, b);
    let cd = and(&mut sys, c, d);
    let left = or(&mut sys, ab, cd);
    let ef = or(&mut sys, e, f);
    let gh = and(&mut sys, g, h);
    let right = and(&mut sys, ef, gh);
    let t = or(&mut sys, left, right);
    def(&mut sys, "z", t);
    let t = tt(&mut sys);
    def(&mut sys, "k", t);
    let t = or(&mut sys, j, j);
    def(&mut sys, "j", t);
    for (name, target) in [("a", j), ("b", a), ("c", k), ("d", b), ("e", c), ("f", d), ("g", e), ("h", g)] {
        def(&mut sys, name, target);
    }
    let goals = vec![
        ("x", true),
        ("y", true),
        ("z", true),
        ("k", true),
        ("j", false),
        ("a", false),
        ("b", false),
        ("c", true),
        ("d", false),
        ("e", true),
        ("f", false),
        ("g", true),
        ("h", true),
    ];
    (sys, goals)
}

#[test]
fn kleene_local_with_oracles_finds_the_least_fixed_point() {
    let (mut sys, goals) = thirteen();
    for (name, goal) in &goals {
        let start = sys.variable(name);
        assert_eq!(kleene_local(&mut sys, start, &SMax::bitset()).unwrap().0, *goal, "{name} with SMax");
        assert_eq!(kleene_local(&mut sys, start, &TrivialOracle::bitset()).unwrap().0, *goal, "{name} with TrivialOracle");
        let both = TrivialOracle::bitset().and(SMax::bitset());
        assert_eq!(kleene_local(&mut sys, start, &both).unwrap().0, *goal, "{name} with both");
        let then = TrivialOracle::bitset().then(SMax::bitset());
        assert_eq!(kleene_local(&mut sys, start, &then).unwrap().0, *goal, "{name} then");
    }
}

use radguy::boolean::{BoolExtension, StrategicBoolExtension};
use radguy::extension::LocalExtension;
use radguy::ordered::extension::StrategicExtension;
use radguy::ordered::strategy::{BinaryHeapStrategy, InitialStrategy, StrategyItem, StrategyWeight};
use radguy::set::bitset::BitsetRelation;

/// Variables a, b with the terms a, b, (a && b) and (a || b).
fn two_variables() -> (Sys, usize, usize, [usize; 4]) {
    let mut sys = Sys::new();
    let ta = var(&mut sys, "a");
    let tb = var(&mut sys, "b");
    let conj = and(&mut sys, ta, tb);
    let disj = or(&mut sys, ta, tb);
    let a = sys.variable("a");
    let b = sys.variable("b");
    (sys, a, b, [ta, tb, conj, disj])
}

fn sorted_keys(set: radguy::set::bitset::BitSet<usize>) -> Vec<usize> {
    let mut keys = set.keys();
    keys.sort();
    keys
}

#[test]
fn bool_extension_follows_the_false_subterms() {
    let (sys, a, b, [ta, tb, conj, disj]) = two_variables();
    let possible = BitsetRelation::from_pairs(vec![(5, a), (6, a), (7, b)]);
    let ext = BoolExtension::bitset();
    let none: HashMap<usize, bool> = HashMap::new();
    assert_eq!(sorted_keys(ext.depends(ta, &none, &possible, &sys)), vec![5, 6]);
    assert_eq!(sorted_keys(ext.depends(conj, &none, &possible, &sys)), vec![5, 6, 7]);
    assert_eq!(sorted_keys(ext.depends(disj, &none, &possible, &sys)), vec![5, 6, 7]);
    let mut a_true = HashMap::new();
    a_true.insert(a, true);
    assert!(ext.depends(ta, &a_true, &possible, &sys).keys().is_empty());
    assert_eq!(sorted_keys(ext.depends(conj, &a_true, &possible, &sys)), vec![7]);
    assert!(ext.depends(disj, &a_true, &possible, &sys).keys().is_empty());
    // A false subterm of a false conjunction that depends on nothing blocks it.
    let only_a = BitsetRelation::from_pairs(vec![(5, a)]);
    assert!(ext.depends(conj, &none, &only_a, &sys).keys().is_empty());
    assert_eq!(sorted_keys(ext.depends(tb, &none, &possible, &sys)), vec![7]);
}

fn weights_of(s: BinaryHeapStrategy<usize>) -> Vec<(usize, StrategyWeight)> {
    let mut r: Vec<(usize, StrategyWeight)> = s.iter().into_iter().map(|i| (i.1, i.0)).collect();
    r.sort_by_key(|p| p.0);
    r
}

#[test]
fn strategic_bool_extension_weighs_the_dependencies() {
    let (sys, a, b, [ta, _tb, conj, disj]) = two_variables();
    let strategy = BinaryHeapStrategy::from_items(vec![
        StrategyItem(StrategyWeight::Num(2), (5, a)),
        StrategyItem(StrategyWeight::Num(3), (5, b)),
        StrategyItem(StrategyWeight::Num(7), (6, a)),
    ]);
    let ext = StrategicBoolExtension::bitset();
    let none: HashMap<usize, bool> = HashMap::new();
    assert_eq!(
        weights_of(ext.depends(ta, &none, &strategy, &sys)),
        vec![(5, StrategyWeight::Num(2)), (6, StrategyWeight::Num(7))]
    );
    assert_eq!(
        weights_of(ext.depends(conj, &none, &strategy, &sys)),
        vec![(5, StrategyWeight::Num(5)), (6, StrategyWeight::Num(7))]
    );
    assert_eq!(
        weights_of(ext.depends(disj, &none, &strategy, &sys)),
        vec![(5, StrategyWeight::Num(2)), (6, StrategyWeight::Num(7))]
    );
    let mut a_true = HashMap::new();
    a_true.insert(a, true);
    assert_eq!(weights_of(ext.depends(conj, &a_true, &strategy, &sys)), vec![(5, StrategyWeight::Num(3))]);
    assert!(weights_of(ext.depends(disj, &a_true, &strategy, &sys)).is_empty());
}

#[test]
fn bool_system_initial_strategy_holds_every_pair() {
    let (sys, a, b, _) = two_variables();
    let s: BinaryHeapStrategy<(usize, usize)> = sys.get_initial_strategy();
    let mut items: Vec<((usize, usize), StrategyWeight)> = s.iter().into_iter().map(|i| (i.1, i.0)).collect();
    items.sort_by_key(|p| p.0);
    let inf = StrategyWeight::Infinity;
    assert_eq!(items, vec![((a, a), inf), ((a, b), inf), ((b, a), inf), ((b, b), inf)]);
}
