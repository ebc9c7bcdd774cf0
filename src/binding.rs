//! The binding-expression view of list-language nodes, and the free
//! identifiers of a node.

use vstd::prelude::*;
use crate::list_op::{ListOp, ListOpView};

verus! {

/// A node of the list language: an operator and its children, which are
/// e-class ids or subexpressions.
pub struct AstNode<T> {
    /// The operator.
    pub operation: ListOp,
    /// The children, in order.
    pub args: Vec<T>,
}

/// The binding-expression view of a node.
pub enum BindingExpr<T> {
    /// An anonymous function of one argument.
    Lambda(T),
    /// A function applied to an argument.
    Apply(T, T),
    /// A de Bruijn index.
    Index(usize),
    /// An identifier.
    Ident(String),
    /// A library binding: `ident` is bound to `value` within `body`.
    Lib { ident: T, value: T, body: T },
}

/// The mathematical content of a `BindingExpr`.
pub enum BindingView<T> {
    Lambda(T),
    Apply(T, T),
    Index(usize),
    Ident(Seq<char>),
    Lib { ident: T, value: T, body: T },
}

impl<T> View for BindingExpr<T> {
    type V = BindingView<T>;

    open spec fn view(&self) -> BindingView<T> {
        match self {
            BindingExpr::Lambda(b) => BindingView::Lambda(*b),
            BindingExpr::Apply(f, a) => BindingView::Apply(*f, *a),
            BindingExpr::Index(i) => BindingView::Index(*i),
            BindingExpr::Ident(s) => BindingView::Ident(s@),
            BindingExpr::Lib { ident, value, body } => BindingView::Lib {
                ident: *ident,
                value: *value,
                body: *body,
            },
        }
    }
}

/// The binding expression that the node `op(args)` is, if it is one.
pub open spec fn binding_of<T>(op: ListOpView, args: Seq<T>) -> Option<BindingView<T>> {
    match op {
        ListOpView::Lambda => if args.len() == 1 {
            Some(BindingView::Lambda(args[0]))
        } else {
            None
        },
        ListOpView::Apply => if args.len() == 2 {
            Some(BindingView::Apply(args[0], args[1]))
        } else {
            None
        },
        ListOpView::Var(i) => if args.len() == 0 {
            Some(BindingView::Index(i))
        } else {
            None
        },
        ListOpView::Ident(s) => if args.len() == 0 {
            Some(BindingView::Ident(s))
        } else {
            None
        },
        ListOpView::Lib => if args.len() == 3 {
            Some(BindingView::Lib { ident: args[0], value: args[1], body: args[2] })
        } else {
            None
        },
        _ => None,
    }
}

/// The operator and children of the node that writes the binding `b`.
pub open spec fn node_of<T>(b: BindingView<T>) -> (ListOpView, Seq<T>) {
    match b {
        BindingView::Lambda(body) => (ListOpView::Lambda, seq![body]),
        BindingView::Apply(f, a) => (ListOpView::Apply, seq![f, a]),
        BindingView::Index(i) => (ListOpView::Var(i), Seq::empty()),
        BindingView::Ident(s) => (ListOpView::Ident(s), Seq::empty()),
        BindingView::Lib { ident, value, body } => (ListOpView::Lib, seq![ident, value, body]),
    }
}

/// The names in `v`, as a set.
pub open spec fn name_set(v: Seq<String>) -> Set<Seq<char>> {
    Set::new(|s: Seq<char>| exists|i: int| 0 <= i < v.len() && (#[trigger] v[i])@ == s)
}

/// The union of the sets in `cs`.
pub open spec fn union_all(cs: Seq<Set<Seq<char>>>) -> Set<Seq<char>>
    decreases cs.len(),
{
    if cs.len() == 0 {
        Set::empty()
    } else {
        union_all(cs.drop_last()).union(cs.last())
    }
}

/// The free identifiers of the node `op` whose children have the free
/// identifiers `cs`: an identifier is free in itself; a `let` or `lib`
/// binds its first child's identifiers in its body; any other node has
/// those of its children.
pub open spec fn free_vars_of(op: ListOpView, cs: Seq<Set<Seq<char>>>) -> Set<Seq<char>> {
    match op {
        ListOpView::Ident(s) => if cs.len() == 0 {
            set![s]
        } else {
            union_all(cs)
        },
        ListOpView::Let | ListOpView::Lib => if cs.len() == 3 {
            cs[2].difference(cs[0]).union(cs[1])
        } else {
            union_all(cs)
        },
        _ => union_all(cs),
    }
}

/// Whether some string of `v` has the text of `s`.
fn contains_name(v: &Vec<String>, s: &String) -> (r: bool)
    ensures
        r == name_set(v@).contains(s@),
{
    let mut i: usize = 0;
    while i < v.len()
        invariant
            i <= v.len(),
            forall|k: int| 0 <= k < i ==> (#[trigger] v@[k])@ != s@,
        decreases v.len() - i,
    {
        if v[i] == *s {
            assert(v@[i as int]@ == s@);
            return true;
        }
        i += 1;
    }
    false
}

/// Adds to `out` each string of `v` whose text `out` does not hold yet.
fn add_names(out: &mut Vec<String>, v: &Vec<String>)
    ensures
        name_set(final(out)@) == name_set(old(out)@).union(name_set(v@)),
{
    let ghost o = old(out)@;
    let mut i: usize = 0;
    while i < v.len()
        invariant
            i <= v.len(),
            name_set(out@) == name_set(o).union(name_set(v@.take(i as int))),
        decreases v.len() - i,
    {
        let ghost before = out@;
        if !contains_name(out, &v[i]) {
            out.push(v[i].clone());
            assert(name_set(out@) =~= name_set(before).insert(v@[i as int]@)) by {
                assert forall|s: Seq<char>| name_set(before).insert(v@[i as int]@).contains(s)
                    implies name_set(out@).contains(s) by {
                    if s == v@[i as int]@ {
                        assert(out@[before.len() as int]@ == s);
                    } else {
                        let k = choose|k: int| 0 <= k < before.len() && (#[trigger] before[k])@ == s;
                        assert(out@[k]@ == s);
                    }
                }
                assert forall|s: Seq<char>| name_set(out@).contains(s)
                    implies name_set(before).insert(v@[i as int]@).contains(s) by {
                    let k = choose|k: int| 0 <= k < out@.len() && (#[trigger] out@[k])@ == s;
                    if k < before.len() {
                        assert(before[k]@ == s);
                    }
                }
            }
        }
        assert(name_set(v@.take(i + 1)) =~= name_set(v@.take(i as int)).insert(v@[i as int]@)) by {
            assert forall|s: Seq<char>| name_set(v@.take(i + 1)).contains(s)
                implies name_set(v@.take(i as int)).insert(v@[i as int]@).contains(s) by {
                let k = choose|k: int| 0 <= k < i + 1 && (#[trigger] v@.take(i + 1)[k])@ == s;
                if k < i {
                    assert(v@.take(i as int)[k]@ == s);
                }
            }
            assert forall|s: Seq<char>| name_set(v@.take(i as int)).insert(v@[i as int]@).contains(s)
                implies name_set(v@.take(i + 1)).contains(s) by {
                if s == v@[i as int]@ {
                    assert(v@.take(i + 1)[i as int]@ == s);
                } else {
                    let k = choose|k: int| 0 <= k < i && (#[trigger] v@.take(i as int)[k])@ == s;
                    assert(v@.take(i + 1)[k]@ == s);
                }
            }
        }
        assert(name_set(out@) =~= name_set(o).union(name_set(v@.take(i + 1))));
        i += 1;
    }
    assert(v@.take(i as int) =~= v@);
}

/// The strings of `v` whose text `w` does not hold.
fn remove_names(v: &Vec<String>, w: &Vec<String>) -> (r: Vec<String>)
    ensures
        name_set(r@) == name_set(v@).difference(name_set(w@)),
{
    let mut out: Vec<String> = Vec::new();
    let mut i: usize = 0;
    while i < v.len()
        invariant
            i <= v.len(),
            name_set(out@) == name_set(v@.take(i as int)).difference(name_set(w@)),
        decreases v.len() - i,
    {
        let ghost before = out@;
        let keep = !contains_name(w, &v[i]);
        if keep {
            out.push(v[i].clone());
        }
        assert(name_set(out@) =~= name_set(v@.take(i + 1)).difference(name_set(w@))) by {
            assert forall|s: Seq<char>| name_set(out@).contains(s)
                implies name_set(v@.take(i + 1)).difference(name_set(w@)).contains(s) by {
                let k = choose|k: int| 0 <= k < out@.len() && (#[trigger] out@[k])@ == s;
                if k < before.len() {
                    assert(before[k]@ == s);
                    assert(name_set(before).contains(s));
                    assert(name_set(v@.take(i as int)).contains(s));
                    let m = choose|m: int| 0 <= m < i && (#[trigger] v@.take(i as int)[m])@ == s;
                    assert(v@.take(i + 1)[m]@ == s);
                } else {
                    assert(v@.take(i + 1)[i as int]@ == s);
                }
            }
            assert forall|s: Seq<char>| name_set(v@.take(i + 1)).difference(name_set(w@)).contains(s)
                implies name_set(out@).contains(s) by {
                let k = choose|k: int| 0 <= k < i + 1 && (#[trigger] v@.take(i + 1)[k])@ == s;
                if k < i {
                    assert(v@.take(i as int)[k]@ == s);
                    assert(name_set(v@.take(i as int)).contains(s));
                    assert(name_set(before).contains(s));
                    let m = choose|m: int| 0 <= m < before.len() && (#[trigger] before[m])@ == s;
                    assert(out@[m]@ == s);
                } else {
                    assert(out@[before.len() as int]@ == s);
                }
            }
        }
        i += 1;
    }
    assert(v@.take(i as int) =~= v@);
    out
}

/// The sets of names of the lists in `cs`.
pub open spec fn name_sets(cs: Seq<Vec<String>>) -> Seq<Set<Seq<char>>> {
    cs.map_values(|v: Vec<String>| name_set(v@))
}

impl ListOp {
    /// The identifier that this operator is, if it is one.
    pub fn get_ident(&self) -> (r: Option<String>)
        ensures
            match self@ {
                ListOpView::Ident(s) => r is Some && r->Some_0@ == s,
                _ => r is None,
            },
    {
        match self {
            ListOp::Ident(s) => Some(s.clone()),
            _ => None,
        }
    }

    /// The free identifiers of a node of this operator whose children have
    /// the free identifiers `children`.
    pub fn free_vars(&self, children: &Vec<Vec<String>>) -> (r: Vec<String>)
        ensures
            name_set(r@) == free_vars_of(self@, name_sets(children@)),
    {
        let ghost cs = name_sets(children@);
        match self {
            ListOp::Ident(s) => {
                if children.len() == 0 {
                    let mut r: Vec<String> = Vec::new();
                    r.push(s.clone());
                    assert(name_set(r@) =~= set![s@]) by {
                        assert(r@[0]@ == s@);
                    }
                    return r;
                }
            },
            ListOp::Let | ListOp::Lib => {
                if children.len() == 3 {
                    let mut r = remove_names(&children[2], &children[0]);
                    add_names(&mut r, &children[1]);
                    return r;
                }
            },
            _ => {},
        }
        let mut r: Vec<String> = Vec::new();
        let mut i: usize = 0;
        assert(name_set(r@) =~= Set::<Seq<char>>::empty());
        assert(cs.take(0) =~= Seq::<Set<Seq<char>>>::empty());
        while i < children.len()
            invariant
                i <= children.len(),
                cs == name_sets(children@),
                name_set(r@) == union_all(cs.take(i as int)),
            decreases children.len() - i,
        {
            add_names(&mut r, &children[i]);
            assert(cs.take(i + 1).drop_last() =~= cs.take(i as int));
            i += 1;
        }
        assert(cs.take(i as int) =~= cs);
        r
    }

    /// The binding expression that the node of this operator with the
    /// children `args` is, if it is one.
    pub fn as_binding_expr<T: Copy>(&self, args: &Vec<T>) -> (r: Option<BindingExpr<T>>)
        ensures
            match r {
                Some(b) => binding_of(self@, args@) == Some(b@),
                None => binding_of(self@, args@) is None,
            },
    {
        match self {
            ListOp::Lambda => {
                if args.len() == 1 {
                    return Some(BindingExpr::Lambda(args[0]));
                }
            },
            ListOp::Apply => {
                if args.len() == 2 {
                    return Some(BindingExpr::Apply(args[0], args[1]));
                }
            },
            ListOp::Var(i) => {
                if args.len() == 0 {
                    return Some(BindingExpr::Index(*i));
                }
            },
            ListOp::Ident(s) => {
                if args.len() == 0 {
                    return Some(BindingExpr::Ident(s.clone()));
                }
            },
            ListOp::Lib => {
                if args.len() == 3 {
                    return Some(BindingExpr::Lib { ident: args[0], value: args[1], body: args[2] });
                }
            },
            _ => {},
        }
        None
    }

    /// The node that writes the binding expression `b`.
    pub fn from_binding_expr<T>(b: BindingExpr<T>) -> (r: AstNode<T>)
        ensures
            (r.operation@, r.args@) == node_of(b@),
    {
        match b {
            BindingExpr::Lambda(body) => AstNode { operation: ListOp::Lambda, args: vec![body] },
            BindingExpr::Apply(f, a) => AstNode { operation: ListOp::Apply, args: vec![f, a] },
            BindingExpr::Index(i) => AstNode { operation: ListOp::Var(i), args: Vec::new() },
            BindingExpr::Ident(s) => AstNode { operation: ListOp::Ident(s), args: Vec::new() },
            BindingExpr::Lib { ident, value, body } => AstNode {
                operation: ListOp::Lib,
                args: vec![ident, value, body],
            },
        }
    }

}

} // verus!
