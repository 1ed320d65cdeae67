use egg_pattern::egraph::EGraph;
use egg_pattern::expr::{ENode, QuestionMarkName, RecExpr};
use egg_pattern::pattern::{Pattern, PatternExpr};
use egg_pattern::rewrite::{Condition, Rewrite};
use egg_pattern::wildmap::WildMap;
use egg_pattern::Id;

fn var(s: &str) -> ENode {
    ENode { op: s.to_string(), children: vec![] }
}

fn op(s: &str, children: Vec<Id>) -> ENode {
    ENode { op: s.to_string(), children }
}

fn pat_op(s: &str, children: Vec<Pattern>) -> Pattern {
    Pattern::Expr(PatternExpr { op: s.to_string(), children })
}

fn pat_var(s: &str) -> Pattern {
    pat_op(s, vec![])
}

fn wild(w: &QuestionMarkName) -> Pattern {
    Pattern::Wildcard(w.clone())
}

fn wm(pairs: &[(QuestionMarkName, Id)]) -> WildMap {
    let mut m = WildMap::default();
    for (w, id) in pairs {
        assert_eq!(m.insert(w.clone(), *id), None);
    }
    m
}

#[test]
fn simple_match() {
    let mut egraph = EGraph::default();

    let x = egraph.add(var("x")).id;
    let y = egraph.add(var("y")).id;
    let plus = egraph.add(op("+", vec![x, y])).id;

    let z = egraph.add(var("z")).id;
    let w = egraph.add(var("w")).id;
    let plus2 = egraph.add(op("+", vec![z, w])).id;

    egraph.union(plus, plus2);
    egraph.rebuild();

    let a: QuestionMarkName = "?a".parse().unwrap();
    let b: QuestionMarkName = "?b".parse().unwrap();

    let commute_plus = Rewrite {
        name: "commute_plus".into(),
        lhs: pat_op("+", vec![wild(&a), wild(&b)]),
        rhs: pat_op("+", vec![wild(&b), wild(&a)]),
        conditions: vec![],
    };

    let matches = commute_plus.search(&egraph);
    assert_eq!(matches.len(), 2);

    let applications = matches.apply_with_limit(&mut egraph, 1000);
    egraph.rebuild();
    assert_eq!(applications.len(), 2);

    let expected_mappings = vec![
        wm(&[(a.clone(), x), (b.clone(), y)]),
        wm(&[(a.clone(), z), (b.clone(), w)]),
    ];

    let actual_mappings: Vec<WildMap> = matches
        .matches
        .iter()
        .flat_map(|m| m.mappings.iter().map(|m2| m2.clone()))
        .collect();

    // for now, check the mappings both ways
    if actual_mappings != expected_mappings {
        let e0 = expected_mappings[0].clone();
        let e1 = expected_mappings[1].clone();
        assert_eq!(actual_mappings, vec![e1, e0]);
    }
}

#[test]
fn conditional_rewrite() {
    let mut egraph = EGraph::default();

    let x = egraph.add(var("x")).id;
    let y = egraph.add(var("2")).id;
    let mul = egraph.add(op("*", vec![x, y])).id;

    let true_pat = pat_var("TRUE");
    let true_id = egraph.add(op("TRUE", vec![])).id;

    let a: QuestionMarkName = "?a".parse().unwrap();
    let b: QuestionMarkName = "?b".parse().unwrap();

    let mul_to_shift = Rewrite {
        name: "mul_to_shift".into(),
        lhs: pat_op("*", vec![wild(&a), wild(&b)]),
        rhs: pat_op(">>", vec![wild(&a), pat_op("log2", vec![wild(&b)])]),
        conditions: vec![Condition {
            lhs: pat_op("is-power2", vec![wild(&b)]),
            rhs: true_pat,
        }],
    };

    // the rewrite shouldn't do anything yet
    egraph.rebuild();
    let apps = mul_to_shift.run(&mut egraph);
    assert_eq!(apps, vec![]);

    // add the needed equality
    let two_ispow2 = egraph.add(op("is-power2", vec![y])).id;
    egraph.union(two_ispow2, true_id);

    // should fire now
    egraph.rebuild();
    let apps = mul_to_shift.run(&mut egraph);
    assert_eq!(apps, vec![mul]);
}

#[test]
fn nonlinear_pattern() {
    let mut egraph = EGraph::default();
    let x = egraph.add(var("x")).id;
    let y = egraph.add(var("y")).id;
    egraph.add(op("+", vec![x, y])).id;
    egraph.rebuild();

    let a: QuestionMarkName = "?a".parse().unwrap();
    let doubled = pat_op("+", vec![wild(&a), wild(&a)]);

    // x != y: the non-linear pattern binds nothing
    let matches = doubled.search(&egraph);
    assert!(matches.is_empty());

    // after x == y it binds ?a to the joint class
    let joint = egraph.union(x, y);
    egraph.rebuild();
    let matches = doubled.search(&egraph);
    assert_eq!(matches.len(), 1);
    assert_eq!(matches[0].mappings, vec![wm(&[(a.clone(), joint)])]);
}

#[test]
fn size_limit_stops_application() {
    let mut egraph = EGraph::default();
    let x = egraph.add(var("x")).id;
    let y = egraph.add(var("y")).id;
    let plus = egraph.add(op("+", vec![x, y])).id;
    egraph.rebuild();

    let a: QuestionMarkName = "?a".parse().unwrap();
    let b: QuestionMarkName = "?b".parse().unwrap();
    let grow = Rewrite {
        name: "grow".into(),
        lhs: pat_op("+", vec![wild(&a), wild(&b)]),
        rhs: pat_op("+", vec![pat_op("+", vec![wild(&a), wild(&b)]), pat_var("zero")]),
        conditions: vec![],
    };

    let before = egraph.total_size();
    let matches = grow.search(&egraph);
    assert_eq!(matches.len(), 1);

    // a limit below the current size stops before the first application
    let apps = matches.apply_with_limit(&mut egraph, 1);
    assert_eq!(apps, vec![]);
    assert_eq!(egraph.total_size(), before);

    // without the limit the application adds the new tree and unions it
    let matches = grow.search(&egraph);
    let apps = matches.apply_with_limit(&mut egraph, usize::MAX);
    assert_eq!(apps, vec![plus]);
    assert!(egraph.total_size() > before);
}

#[test]
fn boundness_rejection() {
    let a: QuestionMarkName = "?a".parse().unwrap();
    let b: QuestionMarkName = "?b".parse().unwrap();

    // ?b appears on the right-hand side but not on the left
    let bad = Rewrite {
        name: "bad".into(),
        lhs: pat_op("f", vec![wild(&a)]),
        rhs: pat_op("g", vec![wild(&b)]),
        conditions: vec![],
    };
    assert!(!bad.is_bound());

    let good = Rewrite {
        name: "good".into(),
        lhs: pat_op("f", vec![wild(&a)]),
        rhs: pat_op("g", vec![wild(&a)]),
        conditions: vec![Condition {
            lhs: pat_op("p", vec![wild(&a)]),
            rhs: pat_var("TRUE"),
        }],
    };
    assert!(good.is_bound());

    // a condition may not use unbound wildcards either
    let bad_cond = Rewrite {
        name: "bad_cond".into(),
        lhs: pat_op("f", vec![wild(&a)]),
        rhs: pat_op("g", vec![wild(&a)]),
        conditions: vec![Condition {
            lhs: pat_op("p", vec![wild(&b)]),
            rhs: pat_var("TRUE"),
        }],
    };
    assert!(!bad_cond.is_bound());
}

#[test]
fn flip_involution() {
    let a: QuestionMarkName = "?a".parse().unwrap();
    let b: QuestionMarkName = "?b".parse().unwrap();
    let r = Rewrite {
        name: "commute".into(),
        lhs: pat_op("+", vec![wild(&a), wild(&b)]),
        rhs: pat_op("+", vec![wild(&b), wild(&a)]),
        conditions: vec![],
    };
    let f1 = r.flip();
    assert_eq!(f1.name, "commute-flipped");
    assert_eq!(f1.lhs, r.rhs);
    assert_eq!(f1.rhs, r.lhs);

    let f2 = f1.flip();
    assert_eq!(f2.name, "commute-flipped-flipped");
    assert_eq!(f2.lhs, r.lhs);
    assert_eq!(f2.rhs, r.rhs);
    assert_eq!(f2.conditions, r.conditions);
}

#[test]
fn noop_apply_keeps_size() {
    let mut egraph = EGraph::default();
    let x = egraph.add(var("x")).id;
    let y = egraph.add(var("y")).id;
    egraph.add(op("+", vec![x, y])).id;
    egraph.rebuild();

    let a: QuestionMarkName = "?a".parse().unwrap();
    let b: QuestionMarkName = "?b".parse().unwrap();
    let commute = Rewrite {
        name: "commute".into(),
        lhs: pat_op("+", vec![wild(&a), wild(&b)]),
        rhs: pat_op("+", vec![wild(&b), wild(&a)]),
        conditions: vec![],
    };

    let first = commute.run(&mut egraph);
    assert_eq!(first.len(), 1);
    egraph.rebuild();

    // every target of the second pass is already present: nothing is
    // reported and the e-graph does not grow
    let size = egraph.total_size();
    let second = commute.run(&mut egraph);
    assert_eq!(second, vec![]);
    assert_eq!(egraph.total_size(), size);
}

#[test]
fn false_condition_changes_no_equalities() {
    let mut egraph = EGraph::default();
    let x = egraph.add(var("x")).id;
    let y = egraph.add(var("y")).id;
    let plus = egraph.add(op("+", vec![x, y])).id;
    egraph.add(op("TRUE", vec![])).id;
    egraph.rebuild();

    let a: QuestionMarkName = "?a".parse().unwrap();
    let b: QuestionMarkName = "?b".parse().unwrap();
    let guarded = Rewrite {
        name: "guarded".into(),
        lhs: pat_op("+", vec![wild(&a), wild(&b)]),
        rhs: pat_op("+", vec![wild(&b), wild(&a)]),
        conditions: vec![Condition {
            lhs: pat_op("never", vec![wild(&a)]),
            rhs: pat_var("TRUE"),
        }],
    };

    let apps = guarded.run(&mut egraph);
    assert_eq!(apps, vec![]);
    // condition checking interned new nodes, but no classes were merged
    assert_ne!(egraph.find(x), egraph.find(y));
    assert_eq!(egraph.find(plus), plus);
}

#[test]
fn wildmap_first_wins() {
    let a: QuestionMarkName = "?a".parse().unwrap();
    let b: QuestionMarkName = "?b".parse().unwrap();
    let mut m = WildMap::default();
    assert_eq!(m.insert(a.clone(), 3), None);
    assert_eq!(m.insert(b.clone(), 4), None);
    // a second insertion reports the prior binding and changes nothing
    assert_eq!(m.insert(a.clone(), 7), Some(3));
    assert_eq!(m.get(&a), Some(3));
    assert_eq!(m.get(&b), Some(4));
    assert_eq!(m.len(), 2);
    let c: QuestionMarkName = "?c".parse().unwrap();
    assert_eq!(m.get(&c), None);
}

#[test]
fn wildcard_names_need_marker() {
    assert!("?a".parse::<QuestionMarkName>().is_ok());
    assert!("a".parse::<QuestionMarkName>().is_err());
    assert!("".parse::<QuestionMarkName>().is_err());
    let a: QuestionMarkName = "?a".parse().unwrap();
    assert_eq!(a.as_str(), "?a");
}

#[test]
fn sexp_display() {
    let a: QuestionMarkName = "?a".parse().unwrap();
    let p = pat_op("+", vec![wild(&a), pat_op("log2", vec![pat_var("x")])]);
    assert_eq!(p.to_sexp().to_string(), "(+ ?a (log2 x))");
    assert_eq!(pat_var("x").to_sexp().to_string(), "x");
    assert_eq!(wild(&a).to_sexp().to_string(), "?a");
}

#[test]
fn from_expr_copies_the_tree() {
    let term = RecExpr {
        op: "+".to_string(),
        children: vec![
            RecExpr { op: "x".to_string(), children: vec![] },
            RecExpr { op: "y".to_string(), children: vec![] },
        ],
    };
    let p = Pattern::from_expr(&term);
    assert_eq!(p, pat_op("+", vec![pat_var("x"), pat_var("y")]));
    assert_eq!(p.to_sexp().to_string(), "(+ x y)");
}

#[test]
fn add_is_hash_consing() {
    let mut egraph = EGraph::default();
    let x1 = egraph.add(var("x"));
    assert!(!x1.was_there);
    let x2 = egraph.add(var("x"));
    assert!(x2.was_there);
    assert_eq!(x1.id, x2.id);
    assert_eq!(egraph.total_size(), 1);
}

#[test]
fn rebuild_restores_congruence() {
    let mut egraph = EGraph::default();
    let x = egraph.add(var("x")).id;
    let y = egraph.add(var("y")).id;
    let fx = egraph.add(op("f", vec![x])).id;
    let fy = egraph.add(op("f", vec![y])).id;
    assert_ne!(egraph.find(fx), egraph.find(fy));
    egraph.union(x, y);
    egraph.rebuild();
    assert_eq!(egraph.find(fx), egraph.find(fy));
}
