//! The tree literal, its grammar, and its parser.
//!
//! ```text
//! TreeLiteral := Expr ',' Expr ( '=>' '{' ChildList '}' )? ','?
//! ChildList   := (ChildSpec (',' ChildSpec)* ','?)?
//! ChildSpec   := Expr ( '=>' '{' ChildList '}' )?
//! ```
//!
//! An expression runs from where it starts to the first comma, fat arrow or end of its
//! group at which the tokens before it form one complete expression.
use vstd::prelude::*;
use crate::token::{
    arrow_at, brace_at, has_arrow_at, ids_of_range, is_comma, is_expr, parses_as_expr, render,
    render_range, Delimiter, TokenKind, TokenTree,
};

verus! {

/// An expression of the literal, as the identifiers of its tokens and its text.
pub struct SpecExpr {
    pub ids: Seq<usize>,
    pub text: Seq<char>,
}

/// An entry of a braced list, as a mathematical value.
pub struct SpecNode {
    pub value: SpecExpr,
    pub children: Seq<SpecNode>,
}

/// A whole literal, as a mathematical value.
pub struct SpecLiteral {
    pub arena: SpecExpr,
    pub root: SpecExpr,
    pub forest: Seq<SpecNode>,
}

/// An expression of the literal.
#[derive(Debug)]
pub struct Expr {
    pub ids: Vec<usize>,
    pub text: String,
}

impl View for Expr {
    type V = SpecExpr;

    open spec fn view(&self) -> SpecExpr {
        SpecExpr { ids: self.ids@, text: self.text@ }
    }
}

/// One entry of a braced list: a value and the entries of its own braced list, in order.
#[derive(Debug)]
pub struct ChildSpec {
    pub value: Expr,
    pub children: Vec<ChildSpec>,
}

/// The value of an entry.
pub open spec fn node_view(c: ChildSpec) -> SpecNode
    decreases c,
{
    SpecNode {
        value: c.value@,
        children: Seq::new(
            c.children.len() as nat,
            |i: int|
                if 0 <= i < c.children.len() {
                    node_view(c.children[i])
                } else {
                    arbitrary()
                },
        ),
    }
}

impl View for ChildSpec {
    type V = SpecNode;

    open spec fn view(&self) -> SpecNode {
        node_view(*self)
    }
}

/// The values of a sequence of entries.
pub open spec fn forest_view(f: Seq<ChildSpec>) -> Seq<SpecNode> {
    f.map_values(|c: ChildSpec| c@)
}

/// One use of the tree literal: where the tree is built, its root, and the root's children.
#[derive(Debug)]
pub struct TreeLiteral {
    pub arena: Expr,
    pub root: Expr,
    pub forest: Vec<ChildSpec>,
}

impl View for TreeLiteral {
    type V = SpecLiteral;

    open spec fn view(&self) -> SpecLiteral {
        SpecLiteral { arena: self.arena@, root: self.root@, forest: forest_view(self.forest@) }
    }
}

/// What the parser found missing or out of place.
#[derive(Clone, Copy, Debug, PartialEq, Eq, Structural)]
pub enum ErrorKind {
    ExpectedExpression,
    ExpectedComma,
    ExpectedBrace,
    UnexpectedToken,
}

/// A syntax error: its kind and the identifier of the offending token, or `None` where
/// the input, or the braced list being read, ended too early.
#[derive(Clone, Copy, Debug, PartialEq, Eq, Structural)]
pub struct SyntaxError {
    pub kind: ErrorKind,
    pub at: Option<usize>,
}

/// The error of kind `kind` at position `q` of `s`.
pub open spec fn error_at(s: Seq<TokenTree>, q: int, kind: ErrorKind) -> SyntaxError {
    SyntaxError { kind, at: if 0 <= q < s.len() { Some(s[q].id) } else { None } }
}

/// Whether an expression may end at position `q` of `s`.
pub open spec fn is_cut(s: Seq<TokenTree>, q: int) -> bool {
    q == s.len() || (0 <= q < s.len() && is_comma(s[q])) || arrow_at(s, q)
}

/// Whether an expression that starts at `p` may end at `q`.
pub open spec fn ends_expr(s: Seq<TokenTree>, p: int, q: int) -> bool {
    is_cut(s, q) && parses_as_expr(render(s.subrange(p, q)))
}

/// The first position from `q` on at which the expression that starts at `p` ends.
pub open spec fn expr_end_from(s: Seq<TokenTree>, p: int, q: int) -> Option<int>
    decreases s.len() - q,
{
    if q > s.len() || q <= p {
        None
    } else if ends_expr(s, p, q) {
        Some(q)
    } else if q < s.len() {
        expr_end_from(s, p, q + 1)
    } else {
        None
    }
}

/// Where the expression that starts at `p` ends, if one starts there.
pub open spec fn expr_end(s: Seq<TokenTree>, p: int) -> Option<int> {
    expr_end_from(s, p, p + 1)
}

/// The largest end `k`, from `q` down to just after `p`, at which the tokens `s[p..k]` read
/// as one expression, cut or no cut.
pub open spec fn longest_expr_from(s: Seq<TokenTree>, p: int, q: int) -> Option<int>
    decreases q - p,
{
    if q <= p {
        None
    } else if parses_as_expr(render(s.subrange(p, q))) {
        Some(q)
    } else {
        longest_expr_from(s, p, q - 1)
    }
}

/// The error where no expression ending at a cut starts at `p`: a missing comma right after
/// the longest run from `p` that reads as an expression, or, where no run does, a missing
/// expression at `p`.
pub open spec fn expr_error(s: Seq<TokenTree>, p: int) -> SyntaxError {
    match longest_expr_from(s, p, s.len() as int) {
        Some(k) => error_at(s, k, ErrorKind::ExpectedComma),
        None => error_at(s, p, ErrorKind::ExpectedExpression),
    }
}

/// The expression made of the tokens `s[p..q]`.
pub open spec fn expr_of(s: Seq<TokenTree>, p: int, q: int) -> SpecExpr {
    SpecExpr {
        ids: s.subrange(p, q).map_values(|t: TokenTree| t.id),
        text: render(s.subrange(p, q)),
    }
}

/// The tokens inside the group `t`.
pub open spec fn group_inner(t: TokenTree) -> Seq<TokenTree> {
    match t.kind {
        TokenKind::Group { inner, .. } => inner@,
        _ => seq![],
    }
}

/// An expression found from `q` on ends after `p`, at or after `q`, within `s`.
pub proof fn lemma_expr_end_bounds(s: Seq<TokenTree>, p: int, q: int)
    ensures
        expr_end_from(s, p, q) matches Some(e) ==> p < e <= s.len() && q <= e && ends_expr(s, p, e),
    decreases s.len() - q,
{
    if q < s.len() && q > p && !ends_expr(s, p, q) {
        lemma_expr_end_bounds(s, p, q + 1);
    }
}

/// Where the entry that starts at `p` ends.
pub open spec fn node_end(s: Seq<TokenTree>, p: int) -> int {
    match expr_end(s, p) {
        Some(q) => if arrow_at(s, q) {
            q + 3
        } else {
            q
        },
        None => p + 1,
    }
}

/// The entry that starts at position `p` of `s`.
pub open spec fn parse_node(s: Seq<TokenTree>, p: int) -> Result<SpecNode, SyntaxError>
    decreases s, s.len() - p, 0int,
{
    match expr_end(s, p) {
        None => Err(expr_error(s, p)),
        Some(q) => {
            let value = expr_of(s, p, q);
            if !arrow_at(s, q) {
                Ok(SpecNode { value, children: seq![] })
            } else if !brace_at(s, q + 2) {
                Err(error_at(s, q + 2, ErrorKind::ExpectedBrace))
            } else {
                proof {
                    lemma_expr_end_bounds(s, p, p + 1);
                    assert(decreases_to!(s => s[q + 2]));
                }
                match parse_list(group_inner(s[q + 2]), 0) {
                    Ok(children) => Ok(SpecNode { value, children }),
                    Err(e) => Err(e),
                }
            }
        },
    }
}

/// The comma-separated entries from position `p` of `s` to its end.
pub open spec fn parse_list(s: Seq<TokenTree>, p: int) -> Result<Seq<SpecNode>, SyntaxError>
    decreases s, s.len() - p, 1int,
{
    if p >= s.len() {
        Ok(seq![])
    } else {
        match parse_node(s, p) {
            Err(e) => Err(e),
            Ok(n) => {
                let r = node_end(s, p);
                proof {
                    lemma_expr_end_bounds(s, p, p + 1);
                }
                if r >= s.len() {
                    Ok(seq![n])
                } else if !is_comma(s[r]) {
                    Err(error_at(s, r, ErrorKind::ExpectedComma))
                } else {
                    match parse_list(s, r + 1) {
                        Ok(rest) => Ok(seq![n] + rest),
                        Err(e) => Err(e),
                    }
                }
            },
        }
    }
}

/// The whole literal in `s`, or the first syntax error in it.
pub open spec fn parse_literal(s: Seq<TokenTree>) -> Result<SpecLiteral, SyntaxError> {
    match expr_end(s, 0) {
        None => Err(expr_error(s, 0)),
        Some(q1) => if !(q1 < s.len() && is_comma(s[q1])) {
            Err(error_at(s, q1, ErrorKind::ExpectedComma))
        } else {
            match expr_end(s, q1 + 1) {
                None => Err(expr_error(s, q1 + 1)),
                Some(q2) => {
                    let forest = if !arrow_at(s, q2) {
                        Ok(seq![])
                    } else if !brace_at(s, q2 + 2) {
                        Err(error_at(s, q2 + 2, ErrorKind::ExpectedBrace))
                    } else {
                        parse_list(group_inner(s[q2 + 2]), 0)
                    };
                    let r = if arrow_at(s, q2) {
                        q2 + 3
                    } else {
                        q2
                    };
                    let r = if r < s.len() && is_comma(s[r]) {
                        r + 1
                    } else {
                        r
                    };
                    match forest {
                        Err(e) => Err(e),
                        Ok(forest) => if r < s.len() {
                            Err(error_at(s, r, ErrorKind::UnexpectedToken))
                        } else {
                            Ok(
                                SpecLiteral {
                                    arena: expr_of(s, 0, q1),
                                    root: expr_of(s, q1 + 1, q2),
                                    forest,
                                },
                            )
                        },
                    }
                },
            }
        },
    }
}

/// The error of kind `kind` at position `q` of `s`.
fn error_here(s: &Vec<TokenTree>, q: usize, kind: ErrorKind) -> (r: SyntaxError)
    ensures
        r == error_at(s@, q as int, kind),
{
    let at = if q < s.len() {
        Some(s[q].id)
    } else {
        None
    };
    SyntaxError { kind, at }
}

/// Where the expression that starts at `p` ends, if one starts there.
pub fn find_expr_end(s: &Vec<TokenTree>, p: usize) -> (r: Option<usize>)
    ensures
        r matches Some(q) ==> expr_end(s@, p as int) == Some(q as int),
        r is None ==> expr_end(s@, p as int) is None,
{
    if p >= s.len() {
        return None;
    }
    let mut q: usize = p + 1;
    loop
        invariant
            p < q <= s.len(),
            expr_end(s@, p as int) == expr_end_from(s@, p as int, q as int),
        decreases s.len() - q,
    {
        let cut = q == s.len() || s[q].is_comma() || has_arrow_at(s, q);
        if cut {
            let text = render_range(s, p, q);
            if is_expr(&text) {
                return Some(q);
            }
        }
        if q == s.len() {
            return None;
        }
        q = q + 1;
    }
}

/// The error where no expression ending at a cut starts at `p`.
pub fn find_expr_error(s: &Vec<TokenTree>, p: usize) -> (r: SyntaxError)
    ensures
        r == expr_error(s@, p as int),
{
    let mut q: usize = s.len();
    loop
        invariant
            q <= s.len(),
            longest_expr_from(s@, p as int, s.len() as int) == longest_expr_from(
                s@,
                p as int,
                q as int,
            ),
        decreases q,
    {
        if q <= p {
            return error_here(s, p, ErrorKind::ExpectedExpression);
        }
        let text = render_range(s, p, q);
        if is_expr(&text) {
            return error_here(s, q, ErrorKind::ExpectedComma);
        }
        q = q - 1;
    }
}

/// The expression made of the tokens `s[p..q]`.
pub fn make_expr(s: &Vec<TokenTree>, p: usize, q: usize) -> (r: Expr)
    requires
        p <= q <= s.len(),
    ensures
        r@ == expr_of(s@, p as int, q as int),
{
    Expr { ids: ids_of_range(s, p, q), text: render_range(s, p, q) }
}

/// The view of an entry is its value and the views of its children.
pub proof fn lemma_child_view(c: ChildSpec)
    ensures
        c@ == (SpecNode { value: c.value@, children: forest_view(c.children@) }),
{
    assert forall|i: int| 0 <= i < c.children.len() implies c@.children[i] == forest_view(
        c.children@,
    )[i] by {
        assert(c@.children[i] == node_view(c.children[i]));
    }
    assert(c@.children =~= forest_view(c.children@));
}

impl ChildSpec {
    /// Reads the entry that starts at position `p` of `s`: an expression, then, after a fat
    /// arrow, a braced list of entries. Returns it with the position where it ends.
    pub fn parse(s: &Vec<TokenTree>, p: usize) -> (r: Result<(ChildSpec, usize), SyntaxError>)
        ensures
            match r {
                Ok((c, e)) => parse_node(s@, p as int) == Ok::<SpecNode, SyntaxError>(c@) && e
                    == node_end(s@, p as int),
                Err(e) => parse_node(s@, p as int) == Err::<SpecNode, SyntaxError>(e),
            },
        decreases s@, 0int,
    {
        let q = match find_expr_end(s, p) {
            None => {
                return Err(find_expr_error(s, p));
            },
            Some(q) => q,
        };
        proof {
            lemma_expr_end_bounds(s@, p as int, p + 1);
        }
        let value = make_expr(s, p, q);
        if !has_arrow_at(s, q) {
            let c = ChildSpec { value, children: Vec::new() };
            proof {
                lemma_child_view(c);
                assert(forest_view(c.children@) =~= seq![]);
            }
            return Ok((c, q));
        }
        assert(q + 1 < s.len());
        if q + 2 >= s.len() {
            return Err(error_here(s, q + 2, ErrorKind::ExpectedBrace));
        }
        match &s[q + 2].kind {
            TokenKind::Group { delimiter, inner } => {
                if *delimiter != Delimiter::Brace {
                    return Err(error_here(s, q + 2, ErrorKind::ExpectedBrace));
                }
                proof {
                    assert(decreases_to!(s@ => s@[q + 2]));
                }
                let children = match parse_forest(inner) {
                    Ok(children) => children,
                    Err(e) => {
                        return Err(e);
                    },
                };
                let c = ChildSpec { value, children };
                proof {
                    lemma_child_view(c);
                }
                Ok((c, q + 3))
            },
            _ => Err(error_here(s, q + 2, ErrorKind::ExpectedBrace)),
        }
    }
}

/// Reads all of `s` as a comma-separated list of entries; a trailing comma is allowed.
pub fn parse_forest(s: &Vec<TokenTree>) -> (r: Result<Vec<ChildSpec>, SyntaxError>)
    ensures
        match r {
            Ok(f) => parse_list(s@, 0) == Ok::<Seq<SpecNode>, SyntaxError>(forest_view(f@)),
            Err(e) => parse_list(s@, 0) == Err::<Seq<SpecNode>, SyntaxError>(e),
        },
    decreases s@, 1int,
{
    let mut items: Vec<ChildSpec> = Vec::new();
    let mut p: usize = 0;
    loop
        invariant
            p <= s.len(),
            parse_list(s@, 0) == match parse_list(s@, p as int) {
                Ok(rest) => Ok(forest_view(items@) + rest),
                Err(e) => Err(e),
            },
        decreases s.len() - p,
    {
        if p >= s.len() {
            assert(forest_view(items@) + seq![] =~= forest_view(items@));
            return Ok(items);
        }
        let (c, r) = match ChildSpec::parse(s, p) {
            Ok(found) => found,
            Err(e) => {
                return Err(e);
            },
        };
        proof {
            lemma_expr_end_bounds(s@, p as int, p + 1);
        }
        let ghost before = items@;
        items.push(c);
        assert(forest_view(items@) =~= forest_view(before) + seq![c@]);
        if r >= s.len() {
            return Ok(items);
        }
        if !s[r].is_comma() {
            return Err(error_here(s, r, ErrorKind::ExpectedComma));
        }
        proof {
            let ghost rest = parse_list(s@, r + 1);
            if let Ok(rest) = rest {
                assert(forest_view(before) + (seq![c@] + rest) =~= forest_view(items@) + rest);
            }
        }
        p = r + 1;
    }
}

impl TreeLiteral {
    /// Reads a whole literal: the arena, a comma, the root, and optionally a fat arrow and a
    /// braced list of the root's children; one trailing comma is allowed.
    pub fn parse(s: &Vec<TokenTree>) -> (r: Result<TreeLiteral, SyntaxError>)
        ensures
            match r {
                Ok(t) => parse_literal(s@) == Ok::<SpecLiteral, SyntaxError>(t@),
                Err(e) => parse_literal(s@) == Err::<SpecLiteral, SyntaxError>(e),
            },
    {
        let q1 = match find_expr_end(s, 0) {
            None => {
                return Err(find_expr_error(s, 0));
            },
            Some(q) => q,
        };
        proof {
            lemma_expr_end_bounds(s@, 0, 1);
        }
        if !(q1 < s.len() && s[q1].is_comma()) {
            return Err(error_here(s, q1, ErrorKind::ExpectedComma));
        }
        let q2 = match find_expr_end(s, q1 + 1) {
            None => {
                return Err(find_expr_error(s, q1 + 1));
            },
            Some(q) => q,
        };
        proof {
            lemma_expr_end_bounds(s@, q1 + 1, q1 + 2);
        }
        let arrow = has_arrow_at(s, q2);
        let forest = if !arrow {
            Vec::new()
        } else if q2 + 2 >= s.len() {
            return Err(error_here(s, q2 + 2, ErrorKind::ExpectedBrace));
        } else {
            match &s[q2 + 2].kind {
                TokenKind::Group { delimiter, inner } => {
                    if *delimiter != Delimiter::Brace {
                        return Err(error_here(s, q2 + 2, ErrorKind::ExpectedBrace));
                    }
                    match parse_forest(inner) {
                        Ok(f) => f,
                        Err(e) => {
                            return Err(e);
                        },
                    }
                },
                _ => {
                    return Err(error_here(s, q2 + 2, ErrorKind::ExpectedBrace));
                },
            }
        };
        let mut r: usize = if arrow {
            q2 + 3
        } else {
            q2
        };
        if r < s.len() && s[r].is_comma() {
            r = r + 1;
        }
        if r < s.len() {
            return Err(error_here(s, r, ErrorKind::UnexpectedToken));
        }
        let arena = make_expr(s, 0, q1);
        let root = make_expr(s, q1 + 1, q2);
        let t = TreeLiteral { arena, root, forest };
        assert(!arrow ==> forest_view(t.forest@) =~= seq![]);
        Ok(t)
    }
}

} // verus!
