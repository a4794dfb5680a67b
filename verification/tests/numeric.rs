use std::collections::HashMap;

use radguy::extension::TermSystem;
use radguy::numeric::{Number, NumericSystem, NumericSystemImpl, NumericTerm};
use radguy::{Arguments, SetOps, System, Universe, Visited};

type Sys = NumericSystemImpl<usize, usize, &'static str>;

fn num(sys: &mut Sys, n: u32) -> usize {
    sys.term(NumericTerm::Const(Number::Val(n)))
}

fn inf(sys: &mut Sys) -> usize {
    sys.term(NumericTerm::Const(Number::Inf))
}

fn var(sys: &mut Sys, name: &'static str) -> usize {
    let v = sys.variable(name);
    sys.term(NumericTerm::Var(v))
}

fn add(sys: &mut Sys, a: usize, b: usize) -> usize {
    sys.term(NumericTerm::Add(a, b))
}

fn mult(sys: &mut Sys, a: usize, b: usize) -> usize {
    sys.term(NumericTerm::Mult(a, b))
}

fn min(sys: &mut Sys, ks: Vec<usize>) -> usize {
    sys.term(NumericTerm::Min(ks))
}

fn max(sys: &mut Sys, ks: Vec<usize>) -> usize {
    sys.term(NumericTerm::Max(ks))
}

fn def(sys: &mut Sys, name: &'static str, term: usize) {
    let v = sys.variable(name);
    sys.define(v, term);
}

fn text_of(sys: &Sys, term: usize) -> String {
    sys.term_at(term).unwrap().to_string(sys)
}

/// The text of the definition of each named variable, by name.
fn texts(sys: &Sys) -> HashMap<&'static str, String> {
    let mut r = HashMap::new();
    for (key, term) in sys.definitions() {
        r.insert(*sys.name_of(key), text_of(sys, term));
    }
    r
}

fn check_texts(sys: &Sys, expected: &[(&str, &str)]) {
    let t = texts(sys);
    assert_eq!(t.len(), expected.len());
    for (name, text) in expected {
        match t.get(name) {
            Some(found) => assert_eq!(found, text),
            None => panic!("{name} not found"),
        }
    }
}

#[test]
fn numeric_system_infinity() {
    let mut sys = Sys::new();
    let t = inf(&mut sys);
    def(&mut sys, "x", t);
    check_texts(&sys, &[("x", "inf")]);
}

#[test]
fn numeric_system_literals() {
    let mut sys = Sys::new();
    let t = num(&mut sys, 3);
    def(&mut sys, "x", t);
    let t = num(&mut sys, 2);
    def(&mut sys, "y", t);
    let t = num(&mut sys, 5);
    def(&mut sys, "z", t);
    check_texts(&sys, &[("x", "3"), ("y", "2"), ("z", "5")]);
}

#[test]
fn numeric_system_variables() {
    let mut sys = Sys::new();
    let t = var(&mut sys, "y");
    def(&mut sys, "x", t);
    let t = var(&mut sys, "z");
    def(&mut sys, "y", t);
    let t = num(&mut sys, 5);
    def(&mut sys, "z", t);
    check_texts(&sys, &[("x", "y"), ("y", "z"), ("z", "5")]);
}

/// x = (y op k); y = z; z = 5; k = t; t = (v op 3); v = (4 op 2), for `op` one of `+` and `*`.
fn binary_system(plus: bool) -> Sys {
    let op = |sys: &mut Sys, a: usize, b: usize| if plus { add(sys, a, b) } else { mult(sys, a, b) };
    let mut sys = Sys::new();
    let y = var(&mut sys, "y");
    let k = var(&mut sys, "k");
    let t = op(&mut sys, y, k);
    def(&mut sys, "x", t);
    let t = var(&mut sys, "z");
    def(&mut sys, "y", t);
    let t = num(&mut sys, 5);
    def(&mut sys, "z", t);
    let t = var(&mut sys, "t");
    def(&mut sys, "k", t);
    let v = var(&mut sys, "v");
    let three = num(&mut sys, 3);
    let t = op(&mut sys, v, three);
    def(&mut sys, "t", t);
    let four = num(&mut sys, 4);
    let two = num(&mut sys, 2);
    let t = op(&mut sys, four, two);
    def(&mut sys, "v", t);
    sys
}

#[test]
fn numeric_system_add() {
    let sys = binary_system(true);
    check_texts(
        &sys,
        &[("x", "(y + k)"), ("y", "z"), ("z", "5"), ("k", "t"), ("t", "(v + 3)"), ("v", "(4 + 2)")],
    );
}

#[test]
fn numeric_system_mult() {
    let sys = binary_system(false);
    check_texts(
        &sys,
        &[("x", "(y * k)"), ("y", "z"), ("z", "5"), ("k", "t"), ("t", "(v * 3)"), ("v", "(4 * 2)")],
    );
}

/// x = op(y, k); y = z; z = 5; k = t; t = op(v, 3); v = op(4, 2), for `op` one of min and max.
fn set_system(minimum: bool) -> Sys {
    let op = |sys: &mut Sys, ks: Vec<usize>| if minimum { min(sys, ks) } else { max(sys, ks) };
    let mut sys = Sys::new();
    let y = var(&mut sys, "y");
    let k = var(&mut sys, "k");
    let t = op(&mut sys, vec![y, k]);
    def(&mut sys, "x", t);
    let t = var(&mut sys, "z");
    def(&mut sys, "y", t);
    let t = num(&mut sys, 5);
    def(&mut sys, "z", t);
    let t = var(&mut sys, "t");
    def(&mut sys, "k", t);
    let v = var(&mut sys, "v");
    let three = num(&mut sys, 3);
    let t = op(&mut sys, vec![v, three]);
    def(&mut sys, "t", t);
    let four = num(&mut sys, 4);
    let two = num(&mut sys, 2);
    let t = op(&mut sys, vec![four, two]);
    def(&mut sys, "v", t);
    sys
}

#[test]
fn numeric_system_min() {
    let sys = set_system(true);
    check_texts(
        &sys,
        &[("x", "min(y, k)"), ("y", "z"), ("z", "5"), ("k", "t"), ("t", "min(v, 3)"), ("v", "min(4, 2)")],
    );
}

#[test]
fn numeric_system_max() {
    let sys = set_system(false);
    check_texts(
        &sys,
        &[("x", "max(y, k)"), ("y", "z"), ("z", "5"), ("k", "t"), ("t", "max(v, 3)"), ("v", "max(4, 2)")],
    );
}

#[test]
fn numeric_system_evaluate_const() {
    let mut sys = Sys::new();
    let t = num(&mut sys, 1);
    def(&mut sys, "x", t);
    let t = inf(&mut sys);
    def(&mut sys, "z", t);
    let x = sys.variable("x");
    let z = sys.variable("z");
    assert_eq!(sys.evaluate(x, &HashMap::new()), Number::Val(1));
    assert_eq!(sys.evaluate(z, &HashMap::new()), Number::Inf);
}

#[test]
fn numeric_system_evaluate_var() {
    let mut sys = Sys::new();
    let t = var(&mut sys, "z");
    def(&mut sys, "x", t);
    let t = num(&mut sys, 1);
    def(&mut sys, "z", t);
    let t = var(&mut sys, "k");
    def(&mut sys, "y", t);
    let t = inf(&mut sys);
    def(&mut sys, "k", t);
    let x = sys.variable("x");
    let z = sys.variable("z");
    let y = sys.variable("y");
    let k = sys.variable("k");
    let mut map = HashMap::new();
    map.insert(z, Number::Val(1));
    map.insert(k, Number::Inf);
    assert_eq!(sys.evaluate(x, &map), Number::Val(1));
    assert_eq!(sys.evaluate(y, &map), Number::Inf);
}

/// A term for a number, `None` standing for infinity.
fn constant(sys: &mut Sys, n: Option<u32>) -> usize {
    match n {
        Some(n) => num(sys, n),
        None => inf(sys),
    }
}

#[test]
fn numeric_system_evaluate_add() {
    let mut sys = Sys::new();
    for (name, a, b) in [("x", Some(1), Some(2)), ("y", Some(1), None), ("z", None, None)] {
        let a = constant(&mut sys, a);
        let b = constant(&mut sys, b);
        let t = add(&mut sys, a, b);
        def(&mut sys, name, t);
    }
    let x = sys.variable("x");
    let y = sys.variable("y");
    let z = sys.variable("z");
    assert_eq!(sys.evaluate(x, &HashMap::new()), Number::Val(3));
    assert_eq!(sys.evaluate(y, &HashMap::new()), Number::Inf);
    assert_eq!(sys.evaluate(z, &HashMap::new()), Number::Inf);
}

#[test]
fn numeric_system_evaluate_mult() {
    let mut sys = Sys::new();
    for (name, a, b) in [("x", Some(3), Some(2)), ("y", Some(1), None), ("z", None, None)] {
        let a = constant(&mut sys, a);
        let b = constant(&mut sys, b);
        let t = mult(&mut sys, a, b);
        def(&mut sys, name, t);
    }
    let x = sys.variable("x");
    let y = sys.variable("y");
    let z = sys.variable("z");
    assert_eq!(sys.evaluate(x, &HashMap::new()), Number::Val(6));
    assert_eq!(sys.evaluate(y, &HashMap::new()), Number::Inf);
    assert_eq!(sys.evaluate(z, &HashMap::new()), Number::Inf);
}

/// Defines each name as the minimum (or maximum) of its constants.
fn set_definitions(sys: &mut Sys, minimum: bool, defs: &[(&'static str, Vec<Option<u32>>)]) {
    for (name, values) in defs {
        let mut ks = Vec::new();
        for v in values {
            ks.push(constant(sys, *v));
        }
        let t = if minimum { min(sys, ks) } else { max(sys, ks) };
        def(sys, name, t);
    }
}

#[test]
fn numeric_system_evaluate_min() {
    let mut sys = Sys::new();
    set_definitions(
        &mut sys,
        true,
        &[
            ("x", vec![Some(7), Some(3)]),
            ("y", vec![None, Some(3)]),
            ("z", vec![Some(7), None]),
            ("k", vec![None, None]),
            ("t", vec![Some(4), Some(0), Some(0)]),
            ("u", vec![Some(4), Some(4), None, Some(2), Some(3)]),
        ],
    );
    let expected = [
        ("x", Number::Val(3)),
        ("y", Number::Val(3)),
        ("z", Number::Val(7)),
        ("k", Number::Inf),
        ("t", Number::Val(0)),
        ("u", Number::Val(2)),
    ];
    for (name, value) in expected {
        let v = sys.variable(name);
        assert_eq!(sys.evaluate(v, &HashMap::new()), value);
    }
}

#[test]
fn numeric_system_evaluate_max() {
    let mut sys = Sys::new();
    set_definitions(
        &mut sys,
        false,
        &[
            ("x", vec![Some(7), Some(3)]),
            ("y", vec![None, Some(3)]),
            ("z", vec![Some(7), None]),
            ("k", vec![None, None]),
            ("t", vec![Some(1), Some(3), Some(2)]),
            ("u", vec![Some(1), Some(3), None, Some(10), Some(40)]),
        ],
    );
    let expected = [
        ("x", Number::Val(7)),
        ("y", Number::Inf),
        ("z", Number::Inf),
        ("k", Number::Inf),
        ("t", Number::Val(3)),
        ("u", Number::Inf),
    ];
    for (name, value) in expected {
        let v = sys.variable(name);
        assert_eq!(sys.evaluate(v, &HashMap::new()), value);
    }
}

#[test]
fn numeric_system_evaluate() {
    // x = max(y, z); y = (k * t); z = inf; k = 10; t = 3
    let mut sys = Sys::new();
    let y = var(&mut sys, "y");
    let z = var(&mut sys, "z");
    let t = max(&mut sys, vec![y, z]);
    def(&mut sys, "x", t);
    let k = var(&mut sys, "k");
    let tv = var(&mut sys, "t");
    let t = mult(&mut sys, k, tv);
    def(&mut sys, "y", t);
    let t = inf(&mut sys);
    def(&mut sys, "z", t);
    let t = num(&mut sys, 10);
    def(&mut sys, "k", t);
    let t = num(&mut sys, 3);
    def(&mut sys, "t", t);
    let x = sys.variable("x");
    let y = sys.variable("y");
    let z = sys.variable("z");
    let k = sys.variable("k");
    let t = sys.variable("t");
    let mut map = HashMap::new();
    map.insert(y, Number::Inf);
    map.insert(z, Number::Inf);
    map.insert(k, Number::Val(10));
    map.insert(t, Number::Val(3));
    assert_eq!(sys.evaluate(x, &map), Number::Inf);
    assert_eq!(sys.evaluate(y, &map), Number::Val(30));
    assert_eq!(sys.evaluate(z, &map), Number::Inf);
    assert_eq!(sys.evaluate(k, &map), Number::Val(10));
    assert_eq!(sys.evaluate(t, &map), Number::Val(3));
}

#[test]
fn numeric_bound_and_overflow() {
    let mut sys = Sys::new();
    let five = num(&mut sys, 5);
    let big = num(&mut sys, u32::MAX);
    let one = num(&mut sys, 1);
    let within = sys.term(NumericTerm::Bound { bound: Number::Val(5), term: five });
    let outside = sys.term(NumericTerm::Bound { bound: Number::Val(4), term: five });
    let any = sys.term(NumericTerm::Bound { bound: Number::Inf, term: five });
    let overflow = add(&mut sys, big, one);
    let a = HashMap::new();
    assert_eq!(sys.evaluate_term(within, &a), Number::Val(0));
    assert_eq!(sys.evaluate_term(outside, &a), Number::Inf);
    assert_eq!(sys.evaluate_term(any, &a), Number::Val(0));
    assert_eq!(sys.evaluate_term(overflow, &a), Number::Inf);
    assert_eq!(text_of(&sys, within), "(bound: 5, term: 5)");
    assert_eq!(text_of(&sys, big), "4294967295");
    let empty_min = min(&mut sys, vec![]);
    let empty_max = max(&mut sys, vec![]);
    assert_eq!(sys.evaluate_term(empty_min, &a), Number::Inf);
    assert_eq!(sys.evaluate_term(empty_max, &a), Number::Val(0));
}

#[test]
fn numeric_sets_of_keys_are_shared() {
    let mut sys = Sys::new();
    let a = num(&mut sys, 1);
    let b = num(&mut sys, 2);
    let m1 = min(&mut sys, vec![b, a, b]);
    let m2 = min(&mut sys, vec![a, b]);
    assert_eq!(m1, m2);
    assert_eq!(text_of(&sys, m1), "min(1, 2)");
    match sys.get_term(m1) {
        NumericTerm::Min(ks) => assert_eq!(ks, vec![a, b]),
        _ => panic!("not a minimum"),
    }
}

#[test]
fn numeric_system_arguments_and_visited() {
    let mut sys = binary_system(true);
    let x = sys.variable("x");
    let y = sys.variable("y");
    let k = sys.variable("k");
    let mut args = sys.arguments(x).keys();
    args.sort();
    let mut expected = vec![y, k];
    expected.sort();
    assert_eq!(args, expected);
    assert_eq!(sys.visited().len(), 6);
    assert_eq!(sys.universe().len(), sys.variable_count());
    let term = sys.definition(x);
    assert_eq!(sys.term_arguments(term).len(), 2);
}

use radguy::DependencyGraphSystem;

#[test]
fn numeric_system_reads_hyperedges_of_least_and_greatest_definitions() {
    let mut sys = Sys::new();
    // x = min(max(y, 2 + z), w); y = max(z); z = 0; w = bound 3 of (1 + y)
    let y = var(&mut sys, "y");
    let two = num(&mut sys, 2);
    let z = var(&mut sys, "z");
    let two_z = add(&mut sys, two, z);
    let e1 = max(&mut sys, vec![y, two_z]);
    let w = var(&mut sys, "w");
    let x_def = min(&mut sys, vec![e1, w]);
    def(&mut sys, "x", x_def);
    let z2 = var(&mut sys, "z");
    let y_def = max(&mut sys, vec![z2]);
    def(&mut sys, "y", y_def);
    let zero = num(&mut sys, 0);
    def(&mut sys, "z", zero);
    let one = num(&mut sys, 1);
    let y2 = var(&mut sys, "y");
    let one_y = add(&mut sys, one, y2);
    let w_def = sys.term(NumericTerm::Bound { bound: Number::Val(3), term: one_y });
    def(&mut sys, "w", w_def);

    let (xv, yv, zv, wv) = (sys.variable("x"), sys.variable("y"), sys.variable("z"), sys.variable("w"));
    assert_eq!(
        sys.get_hyperedges(xv),
        Some(vec![vec![(yv, Number::Val(0)), (zv, Number::Val(2))], vec![(wv, Number::Val(0))]])
    );
    assert_eq!(sys.get_hyperedges(yv), Some(vec![vec![(zv, Number::Val(0))]]));
    assert_eq!(sys.get_hyperedges(zv), Some(vec![]));
    assert_eq!(sys.get_hyperedges(wv), Some(vec![vec![(yv, Number::Val(1))]]));
}

#[test]
fn numeric_system_has_no_hyperedges_for_undefined_or_other_definitions() {
    let mut sys = Sys::new();
    let a = var(&mut sys, "a");
    let b = var(&mut sys, "b");
    let product = mult(&mut sys, a, b);
    def(&mut sys, "p", product);
    let pv = sys.variable("p");
    let av = sys.variable("a");
    assert_eq!(sys.get_hyperedges(pv), None);
    assert_eq!(sys.get_hyperedges(av), None);
}
