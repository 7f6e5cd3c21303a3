//! Flattening a parsed literal into the instructions that build its tree.
use vstd::prelude::*;
use crate::syntax::{
    forest_view, lemma_child_view, ChildSpec, Expr, SpecExpr, SpecLiteral, SpecNode, TreeLiteral,
};

verus! {

/// An instruction, as a mathematical value.
pub enum SpecInstr {
    ResolveRoot(SpecExpr),
    Append(SpecExpr),
    Descend,
    Ascend,
    YieldRoot,
}

/// One step of building the tree. The builder keeps a current node and the last appended
/// node.
#[derive(Debug)]
pub enum Instr {
    /// Turns the value into the root's node identifier, reusing it where it already is a
    /// node identifier and inserting it as a new node without parent otherwise; the root
    /// becomes the current node.
    ResolveRoot(Expr),
    /// Appends the value as the last child of the current node; the new child becomes the
    /// last appended node.
    Append(Expr),
    /// The last appended node becomes the current node.
    Descend,
    /// The parent of the current node becomes the current node.
    Ascend,
    /// Hands back the root's node identifier.
    YieldRoot,
}

impl View for Instr {
    type V = SpecInstr;

    open spec fn view(&self) -> SpecInstr {
        match self {
            Instr::ResolveRoot(e) => SpecInstr::ResolveRoot(e@),
            Instr::Append(e) => SpecInstr::Append(e@),
            Instr::Descend => SpecInstr::Descend,
            Instr::Ascend => SpecInstr::Ascend,
            Instr::YieldRoot => SpecInstr::YieldRoot,
        }
    }
}

/// The values of a sequence of instructions.
pub open spec fn instrs_view(v: Seq<Instr>) -> Seq<SpecInstr> {
    v.map_values(|i: Instr| i@)
}

/// The instructions for one entry: append its value, and where it has children, descend,
/// build them, and ascend again.
pub open spec fn emit_node(n: SpecNode) -> Seq<SpecInstr>
    decreases n,
{
    if n.children.len() == 0 {
        seq![SpecInstr::Append(n.value)]
    } else {
        seq![SpecInstr::Append(n.value), SpecInstr::Descend] + emit_forest(n.children) + seq![
            SpecInstr::Ascend,
        ]
    }
}

/// The instructions for a sequence of sibling entries, left to right.
pub open spec fn emit_forest(f: Seq<SpecNode>) -> Seq<SpecInstr>
    decreases f,
{
    if f.len() == 0 {
        seq![]
    } else {
        proof {
            assert(decreases_to!(f => f.subrange(1, f.len() as int)));
        }
        emit_node(f[0]) + emit_forest(f.subrange(1, f.len() as int))
    }
}

/// The instructions for a whole literal.
pub open spec fn expansion(l: SpecLiteral) -> Seq<SpecInstr> {
    seq![SpecInstr::ResolveRoot(l.root)] + emit_forest(l.forest) + seq![SpecInstr::YieldRoot]
}

/// The expansion of a literal: where the tree is built, and the steps that build it.
#[derive(Debug)]
pub struct Expansion {
    pub arena: Expr,
    pub instrs: Vec<Instr>,
}

/// The instructions for a forest of `a` followed by `b` are those for `a`, then those for `b`.
pub proof fn lemma_emit_forest_concat(a: Seq<SpecNode>, b: Seq<SpecNode>)
    ensures
        emit_forest(a + b) == emit_forest(a) + emit_forest(b),
    decreases a.len(),
{
    if a.len() == 0 {
        assert(a + b =~= b);
        assert(emit_forest(a) + emit_forest(b) =~= emit_forest(b));
    } else {
        let ab = a + b;
        assert(ab[0] == a[0]);
        assert(ab.subrange(1, ab.len() as int) =~= a.subrange(1, a.len() as int) + b);
        lemma_emit_forest_concat(a.subrange(1, a.len() as int), b);
        assert(emit_forest(ab) =~= emit_forest(a) + emit_forest(b));
    }
}

/// A unit of pending work: an entry to build, or the ascent after an entry's children.
enum Work {
    Enter(ChildSpec),
    Leave,
}

spec fn emit_work(w: Work) -> Seq<SpecInstr> {
    match w {
        Work::Enter(c) => emit_node(c@),
        Work::Leave => seq![SpecInstr::Ascend],
    }
}

/// The instructions that a stack of pending work still owes, top first.
spec fn emit_stack(st: Seq<Work>) -> Seq<SpecInstr>
    decreases st.len(),
{
    if st.len() == 0 {
        seq![]
    } else {
        emit_work(st.last()) + emit_stack(st.drop_last())
    }
}

/// Pushes the entries onto the stack so that the first of them is on top.
fn push_entries(stack: &mut Vec<Work>, items: Vec<ChildSpec>)
    ensures
        emit_stack(final(stack)@) == emit_forest(forest_view(items@)) + emit_stack(
            old(stack)@,
        ),
{
    let mut entries = items;
    let ghost all = items@;
    loop
        invariant
            all == items@,
            emit_forest(forest_view(all)) + emit_stack(old(stack)@) == emit_forest(
                forest_view(entries@),
            ) + emit_stack(stack@),
        decreases entries.len(),
    {
        let ghost before = entries@;
        let ghost st = stack@;
        match entries.pop() {
            None => {
                assert(forest_view(entries@) =~= Seq::<SpecNode>::empty());
                assert(emit_forest(forest_view(entries@)) =~= Seq::<SpecInstr>::empty());
                assert(emit_stack(stack@) =~= Seq::<SpecInstr>::empty() + emit_stack(stack@));
                assert(emit_stack(stack@) == emit_forest(forest_view(all)) + emit_stack(
                    old(stack)@,
                ));
                return;
            },
            Some(c) => {
                proof {
                    assert(forest_view(before) =~= forest_view(entries@) + seq![c@]);
                    lemma_emit_forest_concat(forest_view(entries@), seq![c@]);
                    assert(seq![c@].subrange(1, 1) =~= Seq::<SpecNode>::empty());
                    assert(seq![c@][0] == c@);
                    assert(emit_forest(Seq::<SpecNode>::empty()) =~= Seq::<SpecInstr>::empty());
                    assert(emit_forest(seq![c@]) =~= emit_node(c@));
                }
                stack.push(Work::Enter(c));
                assert(stack@.drop_last() =~= st);
                assert(emit_forest(forest_view(before)) + emit_stack(st) =~= emit_forest(
                    forest_view(entries@),
                ) + emit_stack(stack@));
            },
        }
    }
}

/// Flattens a literal: the root is resolved first, then the entries are built depth first,
/// each appended before its children, siblings left to right, with one descent before and
/// one ascent after each non-empty list of children; last the root is handed back.
pub fn expand(lit: TreeLiteral) -> (r: Expansion)
    ensures
        r.arena@ == lit.arena@,
        instrs_view(r.instrs@) == expansion(lit@),
{
    let ghost total = expansion(lit@);
    let TreeLiteral { arena, root, forest } = lit;
    let mut out: Vec<Instr> = Vec::new();
    out.push(Instr::ResolveRoot(root));
    let mut stack: Vec<Work> = Vec::new();
    push_entries(&mut stack, forest);
    assert(emit_stack(Seq::<Work>::empty()) =~= seq![]);
    assert(instrs_view(out@) + emit_stack(stack@) + seq![SpecInstr::YieldRoot] =~= total);
    loop
        invariant
            instrs_view(out@) + emit_stack(stack@) + seq![SpecInstr::YieldRoot] == total,
        ensures
            instrs_view(out@) + seq![SpecInstr::YieldRoot] == total,
        decreases total.len() - out.len(),
    {
        let ghost st = stack@;
        let ghost prev = out@;
        match stack.pop() {
            None => {
                assert(emit_stack(stack@) =~= Seq::<SpecInstr>::empty());
                assert(instrs_view(out@) + emit_stack(stack@) =~= instrs_view(out@));
                break ;
            },
            Some(Work::Leave) => {
                out.push(Instr::Ascend);
                assert(instrs_view(out@) =~= instrs_view(prev) + seq![SpecInstr::Ascend]);
                assert(instrs_view(out@) + emit_stack(stack@) =~= instrs_view(prev) + emit_stack(
                    st,
                ));
            },
            Some(Work::Enter(c)) => {
                proof {
                    lemma_child_view(c);
                }
                let ChildSpec { value, children } = c;
                let ghost v = value@;
                out.push(Instr::Append(value));
                assert(instrs_view(out@) =~= instrs_view(prev) + seq![SpecInstr::Append(v)]);
                if children.len() == 0 {
                    assert(instrs_view(out@) + emit_stack(stack@) =~= instrs_view(prev)
                        + emit_stack(st));
                } else {
                    let ghost mid = out@;
                    out.push(Instr::Descend);
                    assert(instrs_view(out@) =~= instrs_view(mid) + seq![SpecInstr::Descend]);
                    let ghost below = stack@;
                    stack.push(Work::Leave);
                    assert(stack@.drop_last() =~= below);
                    push_entries(&mut stack, children);
                    assert(instrs_view(out@) + emit_stack(stack@) =~= instrs_view(prev)
                        + emit_stack(st));
                }
            },
        }
    }
    let ghost done = out@;
    assert(instrs_view(done) + seq![SpecInstr::YieldRoot] =~= total);
    out.push(Instr::YieldRoot);
    assert(instrs_view(out@) =~= instrs_view(done) + seq![SpecInstr::YieldRoot]);
    Expansion { arena, instrs: out }
}

} // verus!
