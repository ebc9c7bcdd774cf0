use babble::{AstNode, BindingExpr, ListOp};

#[test]
fn arities() {
    assert_eq!(ListOp::Bool(true).min_arity(), 0);
    assert_eq!(ListOp::Int(3).max_arity(), Some(0));
    assert_eq!(ListOp::Lambda.min_arity(), 1);
    assert_eq!(ListOp::Lambda.max_arity(), Some(1));
    assert_eq!(ListOp::Cons.min_arity(), 2);
    assert_eq!(ListOp::Apply.max_arity(), Some(2));
    assert_eq!(ListOp::If.min_arity(), 3);
    assert_eq!(ListOp::Let.max_arity(), Some(3));
    assert_eq!(ListOp::Lib.min_arity(), 3);
    assert_eq!(ListOp::List.min_arity(), 0);
    assert_eq!(ListOp::List.max_arity(), None);
    assert_eq!(ListOp::Ident("x".to_string()).max_arity(), Some(0));
}

#[test]
fn parses_keywords() {
    assert_eq!(ListOp::from_str("cons"), ListOp::Cons);
    assert_eq!(ListOp::from_str("if"), ListOp::If);
    assert_eq!(ListOp::from_str("apply"), ListOp::Apply);
    assert_eq!(ListOp::from_str("@"), ListOp::Apply);
    assert_eq!(ListOp::from_str("lambda"), ListOp::Lambda);
    assert_eq!(ListOp::from_str("λ"), ListOp::Lambda);
    assert_eq!(ListOp::from_str("let"), ListOp::Let);
    assert_eq!(ListOp::from_str("lib"), ListOp::Lib);
    assert_eq!(ListOp::from_str("list"), ListOp::List);
}

#[test]
fn parses_literals() {
    assert_eq!(ListOp::from_str("true"), ListOp::Bool(true));
    assert_eq!(ListOp::from_str("false"), ListOp::Bool(false));
    assert_eq!(ListOp::from_str("42"), ListOp::Int(42));
    assert_eq!(ListOp::from_str("-12"), ListOp::Int(-12));
    assert_eq!(ListOp::from_str("+7"), ListOp::Int(7));
    assert_eq!(ListOp::from_str("007"), ListOp::Int(7));
    assert_eq!(ListOp::from_str("2147483647"), ListOp::Int(i32::MAX));
    assert_eq!(ListOp::from_str("-2147483648"), ListOp::Int(i32::MIN));
}

#[test]
fn parses_indices() {
    assert_eq!(ListOp::from_str("$0"), ListOp::Var(0));
    assert_eq!(ListOp::from_str("$12"), ListOp::Var(12));
    assert_eq!(ListOp::from_str("$+3"), ListOp::Var(3));
}

#[test]
fn parses_identifiers() {
    assert_eq!(ListOp::from_str("foo"), ListOp::Ident("foo".to_string()));
    assert_eq!(ListOp::from_str("2147483648"), ListOp::Ident("2147483648".to_string()));
    assert_eq!(ListOp::from_str("-"), ListOp::Ident("-".to_string()));
    assert_eq!(ListOp::from_str("$"), ListOp::Ident("$".to_string()));
    assert_eq!(ListOp::from_str("$-1"), ListOp::Ident("$-1".to_string()));
    assert_eq!(ListOp::from_str("True"), ListOp::Ident("True".to_string()));
    assert_eq!(ListOp::from_str(""), ListOp::Ident(String::new()));
}

#[test]
fn prints_operators() {
    assert_eq!(ListOp::Cons.to_string(), "cons");
    assert_eq!(ListOp::If.to_string(), "if");
    assert_eq!(ListOp::Apply.to_string(), "@");
    assert_eq!(ListOp::Lambda.to_string(), "λ");
    assert_eq!(ListOp::Let.to_string(), "let");
    assert_eq!(ListOp::Lib.to_string(), "lib");
    assert_eq!(ListOp::List.to_string(), "list");
    assert_eq!(ListOp::Bool(false).to_string(), "false");
    assert_eq!(ListOp::Int(-305).to_string(), "-305");
    assert_eq!(ListOp::Int(0).to_string(), "0");
    assert_eq!(ListOp::Int(i32::MIN).to_string(), "-2147483648");
    assert_eq!(ListOp::Var(7).to_string(), "$7");
    assert_eq!(ListOp::Ident("map".to_string()).to_string(), "map");
}

#[test]
fn print_then_parse_round_trips() {
    let ops = vec![
        ListOp::Cons,
        ListOp::Bool(true),
        ListOp::If,
        ListOp::Int(-17),
        ListOp::Int(i32::MAX),
        ListOp::Apply,
        ListOp::Var(3),
        ListOp::Ident("xs".to_string()),
        ListOp::Lambda,
        ListOp::Let,
        ListOp::Lib,
        ListOp::List,
    ];
    for op in ops {
        let text = op.to_string();
        let back = ListOp::from_str(&text);
        assert_eq!(back, op);
        assert_eq!(back.to_string(), text);
    }
}

#[test]
fn identifiers() {
    assert_eq!(ListOp::Ident("f".to_string()).get_ident(), Some("f".to_string()));
    assert_eq!(ListOp::Lambda.get_ident(), None);
}

fn sorted(mut v: Vec<String>) -> Vec<String> {
    v.sort();
    v
}

fn names(v: &[&str]) -> Vec<String> {
    v.iter().map(|s| s.to_string()).collect()
}

#[test]
fn free_vars_of_an_identifier() {
    let r = ListOp::Ident("x".to_string()).free_vars(&vec![]);
    assert_eq!(r, names(&["x"]));
}

#[test]
fn free_vars_of_a_binding() {
    let children = vec![names(&["f"]), names(&["a", "b"]), names(&["f", "c", "a"])];
    assert_eq!(sorted(ListOp::Let.free_vars(&children)), names(&["a", "b", "c"]));
    assert_eq!(sorted(ListOp::Lib.free_vars(&children)), names(&["a", "b", "c"]));
}

#[test]
fn free_vars_of_other_nodes() {
    let children = vec![names(&["f"]), names(&["a", "f"]), names(&["b"])];
    assert_eq!(sorted(ListOp::If.free_vars(&children)), names(&["a", "b", "f"]));
    assert!(ListOp::Int(3).free_vars(&vec![]).is_empty());
}

#[test]
fn binding_view_of_nodes() {
    assert!(matches!(ListOp::Lambda.as_binding_expr(&vec![5usize]), Some(BindingExpr::Lambda(5))));
    assert!(matches!(ListOp::Apply.as_binding_expr(&vec![1usize, 2]), Some(BindingExpr::Apply(1, 2))));
    assert!(matches!(ListOp::Var(4).as_binding_expr(&Vec::<usize>::new()), Some(BindingExpr::Index(4))));
    match ListOp::Ident("g".to_string()).as_binding_expr(&Vec::<usize>::new()) {
        Some(BindingExpr::Ident(s)) => assert_eq!(s, "g"),
        _ => panic!("expected an identifier"),
    }
    assert!(matches!(
        ListOp::Lib.as_binding_expr(&vec![1usize, 2, 3]),
        Some(BindingExpr::Lib { ident: 1, value: 2, body: 3 })
    ));
    assert!(ListOp::Cons.as_binding_expr(&vec![1usize, 2]).is_none());
    assert!(ListOp::Lambda.as_binding_expr(&vec![1usize, 2]).is_none());
}

#[test]
fn nodes_from_binding_expressions() {
    let n: AstNode<usize> = ListOp::from_binding_expr(BindingExpr::Apply(3, 4));
    assert_eq!(n.operation, ListOp::Apply);
    assert_eq!(n.args, vec![3, 4]);
    let n: AstNode<usize> = ListOp::from_binding_expr(BindingExpr::Lib { ident: 0, value: 1, body: 2 });
    assert_eq!(n.operation, ListOp::Lib);
    assert_eq!(n.args, vec![0, 1, 2]);
    let n: AstNode<usize> = ListOp::from_binding_expr(BindingExpr::Index(2));
    assert_eq!(n.operation, ListOp::Var(2));
    assert!(n.args.is_empty());
}

#[test]
fn arity_checks() {
    assert!(ListOp::Cons.accepts_arity(2));
    assert!(!ListOp::Cons.accepts_arity(1));
    assert!(!ListOp::Cons.accepts_arity(3));
    assert!(ListOp::List.accepts_arity(0));
    assert!(ListOp::List.accepts_arity(17));
    assert!(ListOp::Int(1).accepts_arity(0));
    assert!(!ListOp::Int(1).accepts_arity(1));
    assert!(ListOp::Lib.accepts_arity(3));
}
