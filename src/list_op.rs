//! The operators of the list language: their arities, and the text that
//! writes each of them.

use vstd::prelude::*;
use crate::numeral::{
    decimal, i32_text, is_digit, lemma_decimal, parse_i32, parse_unsigned, push_decimal,
    read_numeral,
};

verus! {

/// List operations.
#[derive(Debug, Clone, PartialEq, Eq, PartialOrd, Ord, Hash)]
pub enum ListOp {
    /// Adds an element to the front of a list.
    Cons,
    /// A boolean literal.
    Bool(bool),
    /// A conditional expression.
    If,
    /// An integer literal.
    Int(i32),
    /// A function application.
    Apply,
    /// A de Bruijn-indexed variable.
    Var(usize),
    /// An identifier.
    Ident(String),
    /// An anonymous function.
    Lambda,
    /// A let-expression.
    Let,
    /// A library function binding.
    Lib,
    /// A list.
    List,
}

/// The mathematical content of a `ListOp`: an identifier is its characters.
pub enum ListOpView {
    Cons,
    Bool(bool),
    If,
    Int(i32),
    Apply,
    Var(usize),
    Ident(Seq<char>),
    Lambda,
    Let,
    Lib,
    List,
}

impl View for ListOp {
    type V = ListOpView;

    open spec fn view(&self) -> ListOpView {
        match self {
            ListOp::Cons => ListOpView::Cons,
            ListOp::Bool(b) => ListOpView::Bool(*b),
            ListOp::If => ListOpView::If,
            ListOp::Int(i) => ListOpView::Int(*i),
            ListOp::Apply => ListOpView::Apply,
            ListOp::Var(n) => ListOpView::Var(*n),
            ListOp::Ident(s) => ListOpView::Ident(s@),
            ListOp::Lambda => ListOpView::Lambda,
            ListOp::Let => ListOpView::Let,
            ListOp::Lib => ListOpView::Lib,
            ListOp::List => ListOpView::List,
        }
    }
}

/// The fewest children a node of `op` has.
pub open spec fn min_arity_of(op: ListOpView) -> usize {
    match op {
        ListOpView::Bool(_) | ListOpView::Int(_) | ListOpView::Var(_) | ListOpView::Ident(_)
        | ListOpView::List => 0,
        ListOpView::Lambda => 1,
        ListOpView::Cons | ListOpView::Apply => 2,
        ListOpView::If | ListOpView::Let | ListOpView::Lib => 3,
    }
}

/// The most children a node of `op` has; `None` where there is no bound.
pub open spec fn max_arity_of(op: ListOpView) -> Option<usize> {
    match op {
        ListOpView::List => None,
        other => Some(min_arity_of(other)),
    }
}

pub open spec fn word_cons() -> Seq<char> {
    seq!['c', 'o', 'n', 's']
}

pub open spec fn word_if() -> Seq<char> {
    seq!['i', 'f']
}

pub open spec fn word_apply() -> Seq<char> {
    seq!['a', 'p', 'p', 'l', 'y']
}

pub open spec fn word_at() -> Seq<char> {
    seq!['@']
}

pub open spec fn word_lambda() -> Seq<char> {
    seq!['l', 'a', 'm', 'b', 'd', 'a']
}

pub open spec fn word_lambda_sign() -> Seq<char> {
    seq!['\u{3bb}']
}

pub open spec fn word_let() -> Seq<char> {
    seq!['l', 'e', 't']
}

pub open spec fn word_lib() -> Seq<char> {
    seq!['l', 'i', 'b']
}

pub open spec fn word_list() -> Seq<char> {
    seq!['l', 'i', 's', 't']
}

pub open spec fn word_true() -> Seq<char> {
    seq!['t', 'r', 'u', 'e']
}

pub open spec fn word_false() -> Seq<char> {
    seq!['f', 'a', 'l', 's', 'e']
}

/// The text that writes `op`.
pub open spec fn print_view(op: ListOpView) -> Seq<char> {
    match op {
        ListOpView::Cons => word_cons(),
        ListOpView::If => word_if(),
        ListOpView::Apply => word_at(),
        ListOpView::Lambda => word_lambda_sign(),
        ListOpView::Let => word_let(),
        ListOpView::Lib => word_lib(),
        ListOpView::List => word_list(),
        ListOpView::Bool(b) => if b {
            word_true()
        } else {
            word_false()
        },
        ListOpView::Int(i) => i32_text(i),
        ListOpView::Var(n) => seq!['$'] + decimal(n as nat),
        ListOpView::Ident(s) => s,
    }
}

/// The index that `s` writes as `$` and a numeral, if it writes one.
pub open spec fn parse_index(s: Seq<char>) -> Option<nat> {
    if s.len() > 0 && s[0] == '$' {
        parse_unsigned(s.drop_first(), usize::MAX as nat)
    } else {
        None
    }
}

/// The operator that the text `s` writes: a keyword, then a boolean, then a
/// de Bruijn index, then an integer; any other text is an identifier.
pub open spec fn parse_view(s: Seq<char>) -> ListOpView {
    if s == word_cons() {
        ListOpView::Cons
    } else if s == word_if() {
        ListOpView::If
    } else if s == word_apply() || s == word_at() {
        ListOpView::Apply
    } else if s == word_lambda() || s == word_lambda_sign() {
        ListOpView::Lambda
    } else if s == word_let() {
        ListOpView::Let
    } else if s == word_lib() {
        ListOpView::Lib
    } else if s == word_list() {
        ListOpView::List
    } else if s == word_true() {
        ListOpView::Bool(true)
    } else if s == word_false() {
        ListOpView::Bool(false)
    } else if parse_index(s) is Some {
        ListOpView::Var(parse_index(s)->Some_0 as usize)
    } else if parse_i32(s) is Some {
        ListOpView::Int(parse_i32(s)->Some_0)
    } else {
        ListOpView::Ident(s)
    }
}

/// Printing an operator and parsing the text gives the operator back, and
/// parsing then printing a printed operator gives the same text; an
/// identifier takes part where its text does not read as another operator.
pub proof fn lemma_print_parse(op: ListOpView)
    requires
        op is Ident ==> parse_view(op->Ident_0) == op,
    ensures
        parse_view(print_view(op)) == op,
        print_view(parse_view(print_view(op))) == print_view(op),
{
    let t = print_view(op);
    match op {
        ListOpView::Int(i) => {
            let n: nat = if i < 0 { (-i) as nat } else { i as nat };
            lemma_decimal(n);
            lemma_not_keyword(t);
            if i < 0 {
                assert(t.drop_first() =~= decimal(n));
                assert(parse_i32(t) == Some(i));
            } else {
                assert(t[0] != '-' && t[0] != '+');
                assert(parse_i32(t) == Some(i));
            }
            assert(parse_index(t) is None);
        },
        ListOpView::Var(k) => {
            lemma_decimal(k as nat);
            assert(t.drop_first() =~= decimal(k as nat));
            lemma_not_keyword(t);
            assert(parse_index(t) == Some(k as nat));
        },
        _ => {},
    }
}

/// A text that starts with a digit, `-` or `$` is none of the keywords.
proof fn lemma_not_keyword(t: Seq<char>)
    requires
        t.len() > 0,
        is_digit(t[0]) || t[0] == '-' || t[0] == '$',
    ensures
        t != word_cons(),
        t != word_if(),
        t != word_apply(),
        t != word_at(),
        t != word_lambda(),
        t != word_lambda_sign(),
        t != word_let(),
        t != word_lib(),
        t != word_list(),
        t != word_true(),
        t != word_false(),
{
}

/// Whether the text `s` is exactly the text `w`.
fn same_text(s: &str, w: &str) -> (r: bool)
    ensures
        r == (s@ == w@),
{
    let n = s.unicode_len();
    if n != w.unicode_len() {
        return false;
    }
    let mut i: usize = 0;
    while i < n
        invariant
            i <= n,
            n == s@.len(),
            n == w@.len(),
            forall|k: int| 0 <= k < i ==> s@[k] == w@[k],
        decreases n - i,
    {
        if s.get_char(i) != w.get_char(i) {
            return false;
        }
        i += 1;
    }
    assert(s@ =~= w@);
    true
}

impl ListOp {
    /// The fewest children a node of this operator has.
    pub fn min_arity(&self) -> (r: usize)
        ensures
            r == min_arity_of(self@),
    {
        match self {
            ListOp::Bool(_) | ListOp::Int(_) | ListOp::Var(_) | ListOp::Ident(_) | ListOp::List => 0,
            ListOp::Lambda => 1,
            ListOp::Cons | ListOp::Apply => 2,
            ListOp::If | ListOp::Let | ListOp::Lib => 3,
        }
    }

    /// The most children a node of this operator has; `None` for a list,
    /// which takes any number.
    pub fn max_arity(&self) -> (r: Option<usize>)
        ensures
            r == max_arity_of(self@),
    {
        match self {
            ListOp::List => None,
            other => Some(other.min_arity()),
        }
    }

    /// Whether a node of this operator may have `n` children.
    pub fn accepts_arity(&self, n: usize) -> (r: bool)
        ensures
            r == (min_arity_of(self@) <= n && match max_arity_of(self@) {
                Some(max) => n <= max,
                None => true,
            }),
    {
        if n < self.min_arity() {
            return false;
        }
        match self.max_arity() {
            Some(max) => n <= max,
            None => true,
        }
    }

    /// The text that writes this operator.
    pub fn to_string(&self) -> (r: String)
        ensures
            r@ == print_view(self@),
    {
        proof {
            reveal_strlit("cons");
            reveal_strlit("if");
            reveal_strlit("@");
            reveal_strlit("\u{3bb}");
            reveal_strlit("let");
            reveal_strlit("lib");
            reveal_strlit("list");
            reveal_strlit("true");
            reveal_strlit("false");
            reveal_strlit("-");
            reveal_strlit("$");
            assert("cons"@ =~= word_cons());
            assert("if"@ =~= word_if());
            assert("@"@ =~= word_at());
            assert("\u{3bb}"@ =~= word_lambda_sign());
            assert("let"@ =~= word_let());
            assert("lib"@ =~= word_lib());
            assert("list"@ =~= word_list());
            assert("true"@ =~= word_true());
            assert("false"@ =~= word_false());
            assert("-"@ =~= seq!['-']);
            assert("$"@ =~= seq!['$']);
        }
        let mut out = String::new();
        match self {
            ListOp::Cons => out.append("cons"),
            ListOp::If => out.append("if"),
            ListOp::Apply => out.append("@"),
            ListOp::Lambda => out.append("\u{3bb}"),
            ListOp::Let => out.append("let"),
            ListOp::Lib => out.append("lib"),
            ListOp::List => out.append("list"),
            ListOp::Bool(b) => {
                if *b {
                    out.append("true")
                } else {
                    out.append("false")
                }
            },
            ListOp::Int(i) => {
                if *i < 0 {
                    out.append("-");
                    let m: i64 = *i as i64;
                    push_decimal(&mut out, (-m) as u64);
                } else {
                    push_decimal(&mut out, *i as u64);
                }
            },
            ListOp::Var(n) => {
                out.append("$");
                push_decimal(&mut out, *n as u64);
            },
            ListOp::Ident(s) => out.append(s.as_str()),
        }
        assert(out@ =~= print_view(self@));
        out
    }

    /// The operator that `input` writes: a keyword, a boolean, a de Bruijn
    /// index `$n`, an integer, or else an identifier.
    pub fn from_str(input: &str) -> (r: ListOp)
        ensures
            r@ == parse_view(input@),
    {
        proof {
            reveal_strlit("cons");
            reveal_strlit("if");
            reveal_strlit("apply");
            reveal_strlit("@");
            reveal_strlit("lambda");
            reveal_strlit("\u{3bb}");
            reveal_strlit("let");
            reveal_strlit("lib");
            reveal_strlit("list");
            reveal_strlit("true");
            reveal_strlit("false");
            assert("cons"@ =~= word_cons());
            assert("if"@ =~= word_if());
            assert("apply"@ =~= word_apply());
            assert("@"@ =~= word_at());
            assert("lambda"@ =~= word_lambda());
            assert("\u{3bb}"@ =~= word_lambda_sign());
            assert("let"@ =~= word_let());
            assert("lib"@ =~= word_lib());
            assert("list"@ =~= word_list());
            assert("true"@ =~= word_true());
            assert("false"@ =~= word_false());
        }
        let ghost s = input@;
        if same_text(input, "cons") {
            return ListOp::Cons;
        }
        if same_text(input, "if") {
            return ListOp::If;
        }
        if same_text(input, "apply") || same_text(input, "@") {
            return ListOp::Apply;
        }
        if same_text(input, "lambda") || same_text(input, "\u{3bb}") {
            return ListOp::Lambda;
        }
        if same_text(input, "let") {
            return ListOp::Let;
        }
        if same_text(input, "lib") {
            return ListOp::Lib;
        }
        if same_text(input, "list") {
            return ListOp::List;
        }
        if same_text(input, "true") {
            return ListOp::Bool(true);
        }
        if same_text(input, "false") {
            return ListOp::Bool(false);
        }
        let n = input.unicode_len();
        if n > 0 && input.get_char(0) == '$' {
            let start: usize = if n > 1 && input.get_char(1) == '+' {
                2
            } else {
                1
            };
            proof {
                let t = s.drop_first();
                if n > 1 && s[1] == '+' {
                    assert(t.drop_first() =~= s.subrange(2, n as int));
                } else {
                    assert(t =~= s.subrange(1, n as int));
                }
            }
            match read_numeral(input, start, usize::MAX as u64) {
                Some(v) => {
                    return ListOp::Var(v as usize);
                },
                None => {},
            }
        }
        if n > 0 && input.get_char(0) == '-' {
            assert(s.drop_first() =~= s.subrange(1, n as int));
            match read_numeral(input, 1, 0x8000_0000) {
                Some(v) => {
                    let m: i64 = -(v as i64);
                    return ListOp::Int(m as i32);
                },
                None => {},
            }
        } else {
            let start: usize = if n > 0 && input.get_char(0) == '+' {
                1
            } else {
                0
            };
            proof {
                if n > 0 && s[0] == '+' {
                    assert(s.drop_first() =~= s.subrange(1, n as int));
                } else {
                    assert(s =~= s.subrange(0, n as int));
                }
            }
            match read_numeral(input, start, 0x7fff_ffff) {
                Some(v) => {
                    return ListOp::Int(v as i32);
                },
                None => {},
            }
        }
        ListOp::Ident(input.to_owned())
    }
}

} // verus!
