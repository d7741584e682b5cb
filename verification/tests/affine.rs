use fds::affine::{free_vars, infer, leaf_multiset, node_count, splits, step, Term, Ty};

fn atom(n: &str, a: u32, b: u32) -> Term {
    Term::Atom(n.to_string(), Ty::Base(a), Ty::Base(b))
}

fn var(x: &str) -> Term {
    Term::Var(x.to_string())
}

fn comp(a: Term, b: Term) -> Term {
    Term::Comp(Box::new(a), Box::new(b))
}

fn tensor(a: Term, b: Term) -> Term {
    Term::Tensor(Box::new(a), Box::new(b))
}

fn stage(a: u32, b: u32) -> Ty {
    Ty::lin(Ty::Base(a), Ty::Base(b))
}

fn has(t: Option<Ty>, expected: Ty) -> bool {
    match t {
        Some(ty) => ty.same(&expected),
        None => false,
    }
}

#[test]
fn linear_terms_have_types() {
    let x = vec![("x".to_string(), stage(1, 2))];
    assert!(has(infer(&x, &var("x")), stage(1, 2)));
    let xy = vec![("x".to_string(), stage(1, 2)), ("y".to_string(), stage(3, 4))];
    assert!(has(
        infer(&xy, &tensor(var("x"), var("y"))),
        Ty::lin(Ty::pair(Ty::Base(1), Ty::Base(3)), Ty::pair(Ty::Base(2), Ty::Base(4)))
    ));
    assert!(has(
        infer(&xy, &tensor(var("y"), var("x"))),
        Ty::lin(Ty::pair(Ty::Base(3), Ty::Base(1)), Ty::pair(Ty::Base(4), Ty::Base(2)))
    ));
    let none = vec![];
    assert!(has(infer(&none, &comp(atom("a", 1, 2), atom("b", 2, 3))), stage(1, 3)));
    assert!(has(infer(&none, &Term::Unit), Ty::lin(Ty::Unit, Ty::Unit)));
    assert!(infer(&none, &comp(atom("a", 1, 2), atom("c", 3, 4))).is_none());
}

#[test]
fn contraction_and_weakening_are_rejected() {
    let x = vec![("x".to_string(), stage(1, 2))];
    assert!(infer(&x, &tensor(var("x"), var("x"))).is_none());
    let xy = vec![("x".to_string(), stage(1, 2)), ("y".to_string(), stage(3, 4))];
    assert!(infer(&xy, &var("x")).is_none());
    let xx = vec![("x".to_string(), stage(1, 2)), ("x".to_string(), stage(1, 2))];
    assert!(infer(&xx, &tensor(var("x"), var("x"))).is_none());
    assert!(infer(&vec![], &var("x")).is_none());
}

#[test]
fn splits_count_every_choice() {
    let xy = vec![("x".to_string(), stage(1, 2)), ("y".to_string(), stage(3, 4))];
    let all = splits(&xy);
    assert_eq!(all.len(), 4);
    let names: Vec<(Vec<String>, Vec<String>)> = all
        .iter()
        .map(|(l, r)| {
            (
                l.iter().map(|e| e.0.clone()).collect(),
                r.iter().map(|e| e.0.clone()).collect(),
            )
        })
        .collect();
    let s = |v: &[&str]| v.iter().map(|x| x.to_string()).collect::<Vec<String>>();
    assert_eq!(
        names,
        vec![
            (s(&[]), s(&["x", "y"])),
            (s(&["x"]), s(&["y"])),
            (s(&["y"]), s(&["x"])),
            (s(&["x", "y"]), s(&[])),
        ]
    );
}

#[test]
fn reduction_rewires_without_allocating() {
    let abcd = comp(
        comp(comp(atom("a", 1, 2), atom("b", 2, 3)), atom("c", 3, 4)),
        atom("d", 4, 5),
    );
    let interchange = comp(
        tensor(atom("a", 1, 2), atom("p", 8, 8)),
        tensor(atom("b", 2, 3), atom("q", 8, 8)),
    );
    for t in [abcd, interchange] {
        let ty = infer(&vec![], &t).unwrap();
        let mut cur = t;
        let mut steps = 0;
        while let Some(next) = step(&cur) {
            assert_eq!(leaf_multiset(&next), leaf_multiset(&cur));
            assert_eq!(node_count(&next), node_count(&cur));
            assert!(has(infer(&vec![], &next), ty.copy()));
            cur = next;
            steps += 1;
            assert!(steps < 1000);
        }
        assert!(steps > 0);
    }
    assert!(step(&Term::Unit).is_none());
}

#[test]
fn leaves_and_variables_are_listed() {
    let t = tensor(comp(var("y"), atom("a", 1, 2)), comp(Term::Unit, var("x")));
    assert_eq!(leaf_multiset(&t), vec!["atom:a", "unit", "var:x", "var:y"]);
    let mut vars = vec!["z".to_string()];
    free_vars(&t, &mut vars);
    assert_eq!(vars, vec!["z", "y", "x"]);
    assert_eq!(node_count(&t), 7);
}
