//! What holds of every expansion.
use vstd::prelude::*;
use crate::expand::{emit_forest, emit_node, expansion, lemma_emit_forest_concat, SpecInstr};
use crate::syntax::{
    ends_expr, expr_end, expr_of, group_inner, expr_end_from, lemma_expr_end_bounds, node_end, parse_list,
    parse_literal, parse_node, SpecLiteral, SpecNode,
};
use crate::token::{arrow_at, brace_at, is_comma, TokenKind, TokenTree};

verus! {

/// The number of entries in a node's subtree, the node included.
pub open spec fn node_size(n: SpecNode) -> nat
    decreases n,
{
    1 + forest_size(n.children)
}

/// The number of entries in a forest, at every depth.
pub open spec fn forest_size(f: Seq<SpecNode>) -> nat
    decreases f,
{
    if f.len() == 0 {
        0
    } else {
        proof {
            assert(decreases_to!(f => f.subrange(1, f.len() as int)));
        }
        node_size(f[0]) + forest_size(f.subrange(1, f.len() as int))
    }
}

/// The number of entries with a non-empty list of children in a node's subtree.
pub open spec fn node_parents(n: SpecNode) -> nat
    decreases n,
{
    (if n.children.len() > 0 {
        1nat
    } else {
        0nat
    }) + forest_parents(n.children)
}

/// The number of entries with a non-empty list of children in a forest, at every depth.
pub open spec fn forest_parents(f: Seq<SpecNode>) -> nat
    decreases f,
{
    if f.len() == 0 {
        0
    } else {
        proof {
            assert(decreases_to!(f => f.subrange(1, f.len() as int)));
        }
        node_parents(f[0]) + forest_parents(f.subrange(1, f.len() as int))
    }
}

/// The sort of an instruction, without its value.
pub enum InstrKind {
    ResolveRoot,
    Append,
    Descend,
    Ascend,
    YieldRoot,
}

pub open spec fn kind_of(i: SpecInstr) -> InstrKind {
    match i {
        SpecInstr::ResolveRoot(_) => InstrKind::ResolveRoot,
        SpecInstr::Append(_) => InstrKind::Append,
        SpecInstr::Descend => InstrKind::Descend,
        SpecInstr::Ascend => InstrKind::Ascend,
        SpecInstr::YieldRoot => InstrKind::YieldRoot,
    }
}

/// How many instructions of sort `k` stand in `s`.
pub open spec fn occurrences(s: Seq<SpecInstr>, k: InstrKind) -> nat
    decreases s.len(),
{
    if s.len() == 0 {
        0
    } else {
        occurrences(s.drop_last(), k) + if kind_of(s.last()) == k {
            1nat
        } else {
            0nat
        }
    }
}

/// Counting distributes over concatenation.
pub proof fn lemma_occurrences_concat(a: Seq<SpecInstr>, b: Seq<SpecInstr>, k: InstrKind)
    ensures
        occurrences(a + b, k) == occurrences(a, k) + occurrences(b, k),
    decreases b.len(),
{
    if b.len() == 0 {
        assert(a + b =~= a);
    } else {
        assert((a + b).drop_last() =~= a + b.drop_last());
        lemma_occurrences_concat(a, b.drop_last(), k);
    }
}

/// One instruction counts once, for its own sort.
pub proof fn lemma_occurrences_unit(x: SpecInstr, k: InstrKind)
    ensures
        occurrences(seq![x], k) == if kind_of(x) == k {
            1nat
        } else {
            0nat
        },
{
    assert(seq![x].drop_last() =~= Seq::<SpecInstr>::empty());
    assert(occurrences(Seq::<SpecInstr>::empty(), k) == 0);
}

/// Counting over `a`, then `b`, then `c`.
pub proof fn lemma_occurrences_three(
    a: Seq<SpecInstr>,
    b: Seq<SpecInstr>,
    c: Seq<SpecInstr>,
    k: InstrKind,
)
    ensures
        occurrences(a + b + c, k) == occurrences(a, k) + occurrences(b, k) + occurrences(c, k),
{
    lemma_occurrences_concat(a, b, k);
    lemma_occurrences_concat(a + b, c, k);
}

/// The instructions for a node's subtree, counted by sort.
pub proof fn lemma_node_counts(n: SpecNode, k: InstrKind)
    ensures
        occurrences(emit_node(n), k) == match k {
            InstrKind::Append => node_size(n),
            InstrKind::Descend => node_parents(n),
            InstrKind::Ascend => node_parents(n),
            _ => 0,
        },
    decreases n,
{
    lemma_occurrences_unit(SpecInstr::Append(n.value), k);
    if n.children.len() == 0 {
        assert(forest_size(n.children) == 0);
        assert(forest_parents(n.children) == 0);
    } else {
        let open = seq![SpecInstr::Append(n.value), SpecInstr::Descend];
        assert(open =~= seq![SpecInstr::Append(n.value)] + seq![SpecInstr::Descend]);
        lemma_occurrences_concat(seq![SpecInstr::Append(n.value)], seq![SpecInstr::Descend], k);
        lemma_occurrences_unit(SpecInstr::Descend, k);
        lemma_occurrences_unit(SpecInstr::Ascend, k);
        lemma_forest_counts(n.children, k);
        lemma_occurrences_three(open, emit_forest(n.children), seq![SpecInstr::Ascend], k);
    }
}

/// The instructions for a forest, counted by sort: one append for each entry at every
/// depth, and one descent and one ascent for each entry with children.
pub proof fn lemma_forest_counts(f: Seq<SpecNode>, k: InstrKind)
    ensures
        occurrences(emit_forest(f), k) == match k {
            InstrKind::Append => forest_size(f),
            InstrKind::Descend => forest_parents(f),
            InstrKind::Ascend => forest_parents(f),
            _ => 0,
        },
    decreases f,
{
    if f.len() == 0 {
        assert(occurrences(Seq::<SpecInstr>::empty(), k) == 0);
    } else {
        let rest = f.subrange(1, f.len() as int);
        assert(decreases_to!(f => rest));
        lemma_node_counts(f[0], k);
        lemma_forest_counts(rest, k);
        lemma_occurrences_concat(emit_node(f[0]), emit_forest(rest), k);
    }
}

/// The expansion of a literal appends exactly as many nodes as the literal has entries, at
/// every depth; it ascends once for each entry with children, and descends as often as it
/// ascends; it resolves the root once and hands it back once.
pub proof fn lemma_expansion_counts(l: SpecLiteral)
    ensures
        occurrences(expansion(l), InstrKind::Append) == forest_size(l.forest),
        occurrences(expansion(l), InstrKind::Ascend) == forest_parents(l.forest),
        occurrences(expansion(l), InstrKind::Descend) == occurrences(
            expansion(l),
            InstrKind::Ascend,
        ),
        occurrences(expansion(l), InstrKind::ResolveRoot) == 1,
        occurrences(expansion(l), InstrKind::YieldRoot) == 1,
{
    let first = SpecInstr::ResolveRoot(l.root);
    let body = emit_forest(l.forest);
    let last = SpecInstr::YieldRoot;
    assert forall|k: InstrKind|
        occurrences(expansion(l), k) == occurrences(seq![first], k) + occurrences(body, k)
            + occurrences(seq![last], k) by {
        lemma_occurrences_three(seq![first], body, seq![last], k);
    }
    assert forall|k: InstrKind|
        occurrences(body, k) == match k {
            InstrKind::Append => forest_size(l.forest),
            InstrKind::Descend => forest_parents(l.forest),
            InstrKind::Ascend => forest_parents(l.forest),
            _ => 0,
        } && occurrences(seq![first], k) == (if k == InstrKind::ResolveRoot {
            1nat
        } else {
            0nat
        }) && occurrences(seq![last], k) == (if k == InstrKind::YieldRoot {
            1nat
        } else {
            0nat
        }) by {
        lemma_forest_counts(l.forest, k);
        lemma_occurrences_unit(first, k);
        lemma_occurrences_unit(last, k);
    }
}

/// Of two siblings, the one written first is appended first: in the instructions for a
/// forest, the append of entry `i` stands at the length of the instructions for the entries
/// before it, and comes strictly before the append of any later entry `j`.
pub proof fn lemma_siblings_in_order(f: Seq<SpecNode>, i: int, j: int)
    requires
        0 <= i < j < f.len(),
    ensures
        emit_forest(f.take(i)).len() < emit_forest(f.take(j)).len() < emit_forest(f).len(),
        emit_forest(f)[emit_forest(f.take(i)).len() as int] == SpecInstr::Append(f[i].value),
        emit_forest(f)[emit_forest(f.take(j)).len() as int] == SpecInstr::Append(f[j].value),
{
    lemma_append_at(f, i);
    lemma_append_at(f, j);
    assert(f.take(j) =~= f.take(i) + f.subrange(i, j));
    lemma_emit_forest_concat(f.take(i), f.subrange(i, j));
    let mid = f.subrange(i, j);
    assert(mid[0] == f[i]);
    assert(emit_node(mid[0]).len() > 0);
    assert(emit_forest(mid).len() > 0);
}

/// In the instructions for a forest, entry `i` is appended right after the instructions for
/// the entries before it.
pub proof fn lemma_append_at(f: Seq<SpecNode>, i: int)
    requires
        0 <= i < f.len(),
    ensures
        emit_forest(f.take(i)).len() < emit_forest(f).len(),
        emit_forest(f)[emit_forest(f.take(i)).len() as int] == SpecInstr::Append(f[i].value),
{
    let tail = f.subrange(i, f.len() as int);
    assert(f =~= f.take(i) + tail);
    lemma_emit_forest_concat(f.take(i), tail);
    assert(tail[0] == f[i]);
    assert(emit_node(tail[0])[0] == SpecInstr::Append(f[i].value));
    assert(emit_forest(tail)[0] == SpecInstr::Append(f[i].value));
}

/// Parsing depends on the tokens alone: the same tokens read twice give the same literal,
/// or the same error.
pub proof fn lemma_parse_repeatable(s: Seq<TokenTree>, t: Seq<TokenTree>)
    requires
        s == t,
    ensures
        parse_literal(s) == parse_literal(t),
{
}

/// How many levels below the root the builder stands after the instructions `s`: descents
/// less ascents.
pub open spec fn depth(s: Seq<SpecInstr>) -> int {
    occurrences(s, InstrKind::Descend) - occurrences(s, InstrKind::Ascend)
}

/// Whether the instructions `s` end where they began and never ascend above it.
pub open spec fn balanced(s: Seq<SpecInstr>) -> bool {
    depth(s) == 0 && forall|k: int| 0 <= k <= s.len() ==> depth(#[trigger] s.take(k)) >= 0
}

/// Depth adds up over concatenation.
pub proof fn lemma_depth_concat(a: Seq<SpecInstr>, b: Seq<SpecInstr>)
    ensures
        depth(a + b) == depth(a) + depth(b),
{
    lemma_occurrences_concat(a, b, InstrKind::Descend);
    lemma_occurrences_concat(a, b, InstrKind::Ascend);
}

/// Two balanced runs one after the other are balanced.
pub proof fn lemma_balanced_concat(a: Seq<SpecInstr>, b: Seq<SpecInstr>)
    requires
        balanced(a),
        balanced(b),
    ensures
        balanced(a + b),
{
    lemma_depth_concat(a, b);
    assert forall|k: int| 0 <= k <= (a + b).len() implies depth(#[trigger] (a + b).take(k))
        >= 0 by {
        if k <= a.len() {
            assert((a + b).take(k) =~= a.take(k));
        } else {
            assert((a + b).take(k) =~= a + b.take(k - a.len()));
            assert(depth(b.take(k - a.len())) >= 0);
            lemma_depth_concat(a, b.take(k - a.len()));
        }
    }
}

/// A balanced run between one descent and one ascent is balanced.
pub proof fn lemma_balanced_nest(x: SpecInstr, b: Seq<SpecInstr>)
    requires
        kind_of(x) == InstrKind::Append,
        balanced(b),
    ensures
        balanced(seq![x, SpecInstr::Descend] + b + seq![SpecInstr::Ascend]),
{
    let open = seq![x, SpecInstr::Descend];
    let close = seq![SpecInstr::Ascend];
    let s = open + b + close;
    assert(open =~= seq![x] + seq![SpecInstr::Descend]);
    assert forall|k: InstrKind| occurrences(open, k) == occurrences(seq![x], k) + occurrences(
        seq![SpecInstr::Descend],
        k,
    ) by {
        lemma_occurrences_concat(seq![x], seq![SpecInstr::Descend], k);
    }
    lemma_occurrences_unit(x, InstrKind::Descend);
    lemma_occurrences_unit(x, InstrKind::Ascend);
    lemma_occurrences_unit(SpecInstr::Descend, InstrKind::Descend);
    lemma_occurrences_unit(SpecInstr::Descend, InstrKind::Ascend);
    lemma_occurrences_unit(SpecInstr::Ascend, InstrKind::Descend);
    lemma_occurrences_unit(SpecInstr::Ascend, InstrKind::Ascend);
    assert(depth(open) == 1);
    assert(depth(close) == -1);
    lemma_depth_concat(open, b);
    lemma_depth_concat(open + b, close);
    assert forall|k: int| 0 <= k <= s.len() implies depth(#[trigger] s.take(k)) >= 0 by {
        if k == 0 {
            assert(s.take(k) =~= Seq::<SpecInstr>::empty());
            assert(occurrences(Seq::<SpecInstr>::empty(), InstrKind::Descend) == 0);
            assert(occurrences(Seq::<SpecInstr>::empty(), InstrKind::Ascend) == 0);
        } else if k == 1 {
            assert(s.take(k) =~= seq![x]);
        } else if k <= 2 + b.len() {
            assert(s.take(k) =~= open + b.take(k - 2));
            assert(depth(b.take(k - 2)) >= 0);
            lemma_depth_concat(open, b.take(k - 2));
        } else {
            assert(s.take(k) =~= s);
        }
    }
}

/// The instructions for a node's subtree are balanced.
pub proof fn lemma_node_balanced(n: SpecNode)
    ensures
        balanced(emit_node(n)),
    decreases n,
{
    let x = SpecInstr::Append(n.value);
    lemma_occurrences_unit(x, InstrKind::Descend);
    lemma_occurrences_unit(x, InstrKind::Ascend);
    if n.children.len() == 0 {
        assert forall|k: int| 0 <= k <= 1 implies depth(#[trigger] seq![x].take(k)) >= 0 by {
            if k == 0 {
                assert(seq![x].take(k) =~= Seq::<SpecInstr>::empty());
                assert(occurrences(Seq::<SpecInstr>::empty(), InstrKind::Descend) == 0);
                assert(occurrences(Seq::<SpecInstr>::empty(), InstrKind::Ascend) == 0);
            } else {
                assert(seq![x].take(k) =~= seq![x]);
            }
        }
    } else {
        lemma_forest_balanced(n.children);
        lemma_balanced_nest(x, emit_forest(n.children));
    }
}

/// The instructions for a forest are balanced.
pub proof fn lemma_forest_balanced(f: Seq<SpecNode>)
    ensures
        balanced(emit_forest(f)),
    decreases f,
{
    if f.len() == 0 {
        let e = Seq::<SpecInstr>::empty();
        assert(occurrences(e, InstrKind::Descend) == 0);
        assert(occurrences(e, InstrKind::Ascend) == 0);
        assert forall|k: int| 0 <= k <= 0 implies depth(#[trigger] e.take(k)) >= 0 by {
            assert(e.take(k) =~= e);
        }
    } else {
        let rest = f.subrange(1, f.len() as int);
        assert(decreases_to!(f => rest));
        lemma_node_balanced(f[0]);
        lemma_forest_balanced(rest);
        lemma_balanced_concat(emit_node(f[0]), emit_forest(rest));
    }
}

/// Every descent of an expansion is matched by exactly one later ascent: the builder ends at
/// the root, and no ascent ever leaves the root's level, so the node it ascends from always
/// has a parent.
pub proof fn lemma_expansion_balanced(l: SpecLiteral)
    ensures
        balanced(expansion(l)),
{
    let first = seq![SpecInstr::ResolveRoot(l.root)];
    let last = seq![SpecInstr::YieldRoot];
    lemma_forest_balanced(l.forest);
    assert forall|x: SpecInstr|
        kind_of(x) != InstrKind::Descend && kind_of(x) != InstrKind::Ascend implies balanced(
        #[trigger] seq![x],
    ) by {
        lemma_occurrences_unit(x, InstrKind::Descend);
        lemma_occurrences_unit(x, InstrKind::Ascend);
        assert forall|k: int| 0 <= k <= 1 implies depth(#[trigger] seq![x].take(k)) >= 0 by {
            if k == 0 {
                assert(seq![x].take(k) =~= Seq::<SpecInstr>::empty());
                assert(occurrences(Seq::<SpecInstr>::empty(), InstrKind::Descend) == 0);
                assert(occurrences(Seq::<SpecInstr>::empty(), InstrKind::Ascend) == 0);
            } else {
                assert(seq![x].take(k) =~= seq![x]);
            }
        }
    }
    assert(balanced(first));
    assert(balanced(last));
    lemma_balanced_concat(first, emit_forest(l.forest));
    lemma_balanced_concat(first + emit_forest(l.forest), last);
}

/// Whether `t` is the punctuation character `>`.
pub open spec fn is_gt(t: TokenTree) -> bool {
    match t.kind {
        TokenKind::Punct { ch, .. } => ch == '>',
        _ => false,
    }
}

/// Tokens added after `s`, where the first of them ends an expression and is no `>`, leave
/// unchanged where an expression found in `s` ends.
pub proof fn lemma_expr_end_extend(s: Seq<TokenTree>, u: Seq<TokenTree>, p: int, q: int)
    requires
        u.len() > 0,
        !is_gt(u[0]),
        is_comma(u[0]) || arrow_at(s + u, s.len() as int),
        0 <= p < q <= s.len(),
        expr_end_from(s, p, q) is Some,
    ensures
        expr_end_from(s + u, p, q) == expr_end_from(s, p, q),
    decreases s.len() - q,
{
    let t = s + u;
    assert(t.subrange(p, q) =~= s.subrange(p, q));
    if q < s.len() {
        assert(t[q] == s[q]);
        if q + 1 < s.len() {
            assert(t[q + 1] == s[q + 1]);
        } else {
            assert(t[q + 1] == u[0]);
        }
        assert(arrow_at(t, q) == arrow_at(s, q));
        assert(ends_expr(t, p, q) == ends_expr(s, p, q));
        if !ends_expr(s, p, q) {
            lemma_expr_end_extend(s, u, p, q + 1);
        }
    } else {
        assert(ends_expr(t, p, q) == ends_expr(s, p, q));
    }
}

/// A comma after a braced list that ends in an entry changes nothing in how it reads, from
/// any entry on.
pub proof fn lemma_trailing_comma_from(s: Seq<TokenTree>, c: TokenTree, p: int)
    requires
        is_comma(c),
        s.len() > 0,
        !is_comma(s.last()),
        0 <= p < s.len(),
        parse_list(s, p) is Ok,
    ensures
        parse_list(s.push(c), p) == parse_list(s, p),
    decreases s.len() - p,
{
    let t = s.push(c);
    let n = s.len() as int;
    assert(t =~= s + seq![c]);
    assert(!is_gt(c));
    let q = expr_end(s, p)->Some_0;
    lemma_expr_end_bounds(s, p, p + 1);
    lemma_expr_end_extend(s, seq![c], p, p + 1);
    assert(expr_end(t, p) == Some(q));
    assert(t.subrange(p, q) =~= s.subrange(p, q));
    assert(t[n] == c);
    if q + 1 < n {
        assert(t[q] == s[q] && t[q + 1] == s[q + 1]);
    } else if q < n {
        assert(t[q] == s[q]);
    }
    assert(arrow_at(t, q) == arrow_at(s, q));
    if arrow_at(s, q) {
        if q + 2 < n {
            assert(t[q + 2] == s[q + 2]);
        }
        assert(brace_at(t, q + 2) == brace_at(s, q + 2));
    }
    assert(parse_node(t, p) == parse_node(s, p));
    assert(node_end(t, p) == node_end(s, p));
    let r = node_end(s, p);
    if r >= n {
        assert(r == n);
        assert(parse_list(t, n + 1) == Ok::<Seq<SpecNode>, crate::syntax::SyntaxError>(seq![]));
        let node = parse_node(s, p)->Ok_0;
        assert(seq![node] + Seq::<SpecNode>::empty() =~= seq![node]);
    } else {
        assert(t[r] == s[r]);
        if r + 1 < n {
            lemma_trailing_comma_from(s, c, r + 1);
        } else {
            assert(s.last() == s[r]);
        }
    }
}

/// A trailing comma is ignored: a braced list that reads without error and ends in an entry
/// reads the same with a comma after that entry.
pub proof fn lemma_trailing_comma(s: Seq<TokenTree>, c: TokenTree)
    requires
        is_comma(c),
        s.len() > 0,
        !is_comma(s.last()),
        parse_list(s, 0) is Ok,
    ensures
        parse_list(s.push(c), 0) == parse_list(s, 0),
{
    lemma_trailing_comma_from(s, c, 0);
}

/// Whether `u` is a fat arrow followed by an empty pair of braces.
pub open spec fn is_empty_braced_list(u: Seq<TokenTree>) -> bool {
    u.len() == 3 && arrow_at(u, 0) && brace_at(u, 2) && group_inner(u[2]).len() == 0
}

/// An empty braced list is no list: a literal without a fat arrow and without a trailing
/// comma reads, with an empty forest, exactly as it does with `=> {}` after it, so both
/// expand to the same instructions.
pub proof fn lemma_empty_forest(s: Seq<TokenTree>, u: Seq<TokenTree>)
    requires
        is_empty_braced_list(u),
        s.len() > 0,
        !is_comma(s.last()),
        forall|i: int| !arrow_at(s, i),
        parse_literal(s) is Ok,
    ensures
        parse_literal(s + u) == parse_literal(s),
        parse_literal(s)->Ok_0.forest.len() == 0,
        expansion(parse_literal(s + u)->Ok_0) == expansion(parse_literal(s)->Ok_0),
{
    let t = s + u;
    let n = s.len() as int;
    assert(t[n] == u[0] && t[n + 1] == u[1] && t[n + 2] == u[2]);
    assert(arrow_at(t, n));
    assert(!is_gt(u[0]));
    let q1 = expr_end(s, 0)->Some_0;
    lemma_expr_end_bounds(s, 0, 1);
    lemma_expr_end_extend(s, u, 0, 1);
    assert(t[q1] == s[q1]);
    let q2 = expr_end(s, q1 + 1)->Some_0;
    lemma_expr_end_bounds(s, q1 + 1, q1 + 2);
    lemma_expr_end_extend(s, u, q1 + 1, q1 + 2);
    assert(!arrow_at(s, q2));
    if q2 < n {
        assert(s.last() == s[n - 1]);
        assert(q2 == n - 1 ==> !is_comma(s[q2]));
    }
    assert(q2 == n);
    assert(t.subrange(0, q1) =~= s.subrange(0, q1));
    assert(t.subrange(q1 + 1, q2) =~= s.subrange(q1 + 1, q2));
    assert(expr_of(t, 0, q1) == expr_of(s, 0, q1));
    assert(expr_of(t, q1 + 1, q2) == expr_of(s, q1 + 1, q2));
    assert(brace_at(t, q2 + 2));
    assert(group_inner(t[q2 + 2]).len() == 0);
    assert(parse_list(group_inner(t[q2 + 2]), 0) == Ok::<Seq<SpecNode>, crate::syntax::SyntaxError>(
        seq![],
    ));
}

/// Whether `path` leads from the forest `f` to a nested list: each index picks an entry of
/// the current list, and that entry has children, which become the current list.
pub open spec fn valid_path(f: Seq<SpecNode>, path: Seq<int>) -> bool
    decreases path.len(),
{
    path.len() == 0 || (0 <= path[0] < f.len() && f[path[0]].children.len() > 0 && valid_path(
        f[path[0]].children,
        path.drop_first(),
    ))
}

/// The list that `path` leads to from `f`.
pub open spec fn list_at(f: Seq<SpecNode>, path: Seq<int>) -> Seq<SpecNode>
    decreases path.len(),
{
    if path.len() == 0 || !(0 <= path[0] < f.len()) {
        f
    } else {
        list_at(f[path[0]].children, path.drop_first())
    }
}

/// Where, in the instructions for `f`, those for the list that `path` leads to begin.
pub open spec fn list_offset(f: Seq<SpecNode>, path: Seq<int>) -> int
    decreases path.len(),
{
    if path.len() == 0 || !(0 <= path[0] < f.len()) {
        0
    } else {
        emit_forest(f.take(path[0])).len() + 2 + list_offset(
            f[path[0]].children,
            path.drop_first(),
        )
    }
}

/// The instructions for entry `i` of `f` follow those for the entries before it.
pub proof fn lemma_emit_forest_split(f: Seq<SpecNode>, i: int)
    requires
        0 <= i < f.len(),
    ensures
        emit_forest(f) == emit_forest(f.take(i)) + emit_node(f[i]) + emit_forest(
            f.subrange(i + 1, f.len() as int),
        ),
{
    let tail = f.subrange(i, f.len() as int);
    assert(f =~= f.take(i) + tail);
    lemma_emit_forest_concat(f.take(i), tail);
    assert(tail[0] == f[i]);
    assert(tail.subrange(1, tail.len() as int) =~= f.subrange(i + 1, f.len() as int));
    assert(emit_forest(f.take(i)) + (emit_node(f[i]) + emit_forest(
        f.subrange(i + 1, f.len() as int),
    )) =~= emit_forest(f.take(i)) + emit_node(f[i]) + emit_forest(
        f.subrange(i + 1, f.len() as int),
    ));
}

/// The instructions for a nested list stand as one block inside those for the whole forest.
pub proof fn lemma_list_block(f: Seq<SpecNode>, path: Seq<int>)
    requires
        valid_path(f, path),
    ensures
        0 <= list_offset(f, path),
        list_offset(f, path) + emit_forest(list_at(f, path)).len() <= emit_forest(f).len(),
        emit_forest(f).subrange(
            list_offset(f, path),
            list_offset(f, path) + emit_forest(list_at(f, path)).len(),
        ) == emit_forest(list_at(f, path)),
    decreases path.len(),
{
    if path.len() == 0 {
        assert(emit_forest(f).subrange(0, emit_forest(f).len() as int) =~= emit_forest(f));
    } else {
        let i = path[0];
        let n = f[i];
        let rest = path.drop_first();
        lemma_list_block(n.children, rest);
        lemma_emit_forest_split(f, i);
        let before = emit_forest(f.take(i));
        let inner = emit_forest(n.children);
        let open = seq![SpecInstr::Append(n.value), SpecInstr::Descend];
        let close = seq![SpecInstr::Ascend];
        let after = emit_forest(f.subrange(i + 1, f.len() as int));
        let whole = before + (open + inner + close) + after;
        assert(emit_forest(f) == whole);
        let o = list_offset(n.children, rest);
        let m = emit_forest(list_at(n.children, rest)).len();
        assert(list_offset(f, path) == before.len() + 2 + o);
        assert forall|k: int| 0 <= k < m implies #[trigger] whole[before.len() + 2 + o + k]
            == inner[o + k] by {
            assert(whole[before.len() + 2 + o + k] == (open + inner + close)[2 + o + k]);
        }
        assert(whole.subrange(before.len() + 2 + o, before.len() + 2 + o + m) =~= inner.subrange(
            o,
            o + m,
        ));
    }
}

/// Of two siblings in any list of a literal, at any depth, the one written first is appended
/// first in the whole expansion. The list is the one that `path` leads to from the root's
/// children; the append of its entry `i` stands right after the instructions for the entries
/// before it.
pub proof fn lemma_nested_siblings_in_order(l: SpecLiteral, path: Seq<int>, i: int, j: int)
    requires
        valid_path(l.forest, path),
        0 <= i < j < list_at(l.forest, path).len(),
    ensures
        ({
            let g = list_at(l.forest, path);
            let a = 1 + list_offset(l.forest, path) + emit_forest(g.take(i)).len();
            let b = 1 + list_offset(l.forest, path) + emit_forest(g.take(j)).len();
            &&& a < b < expansion(l).len()
            &&& expansion(l)[a] == SpecInstr::Append(g[i].value)
            &&& expansion(l)[b] == SpecInstr::Append(g[j].value)
        }),
{
    let g = list_at(l.forest, path);
    let o = list_offset(l.forest, path);
    lemma_list_block(l.forest, path);
    lemma_siblings_in_order(g, i, j);
    let body = emit_forest(l.forest);
    let whole = seq![SpecInstr::ResolveRoot(l.root)] + body + seq![SpecInstr::YieldRoot];
    assert(expansion(l) == whole);
    let a = emit_forest(g.take(i)).len() as int;
    let b = emit_forest(g.take(j)).len() as int;
    assert(body.subrange(o, o + emit_forest(g).len())[a] == emit_forest(g)[a]);
    assert(body.subrange(o, o + emit_forest(g).len())[b] == emit_forest(g)[b]);
    assert(whole[1 + o + a] == body[o + a]);
    assert(whole[1 + o + b] == body[o + b]);
}

} // verus!
