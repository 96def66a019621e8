//! The evaluation walk: an on-demand, restartable expansion of a format
//! tree into the sequence of its leaf editing nodes.

use vstd::prelude::*;
use crate::format::{FormatNode, FNode, view_nodes, lemma_view_nodes_index, is_interior};

verus! {

broadcast use vstd::std_specs::vec::group_vec_axioms;

/// The leaf sequence of one node: groups concatenate their members,
/// repeats concatenate copies, leaves stand for themselves.
pub open spec fn leaves_of(n: FNode) -> Seq<FNode>
    decreases n,
{
    match n {
        FNode::Group(v) => leaves_list(v),
        FNode::Repeat(k, b) => repeat_seq(leaves_of(*b), k as nat),
        _ => seq![n],
    }
}

/// The concatenated leaf sequences of a node list.
pub open spec fn leaves_list(v: Seq<FNode>) -> Seq<FNode>
    decreases v,
{
    if v.len() == 0 {
        Seq::empty()
    } else {
        leaves_of(v[0]) + leaves_list(v.drop_first())
    }
}

/// `k` copies of a sequence, one after the other.
pub open spec fn repeat_seq(sq: Seq<FNode>, k: nat) -> Seq<FNode>
    decreases k,
{
    if k == 0 {
        Seq::empty()
    } else {
        sq + repeat_seq(sq, (k - 1) as nat)
    }
}

/// The leaf sequence of a tree holds no group and no repeat node.
pub proof fn lemma_walk_yields_leaves(n: FNode)
    ensures
        forall|i: int|
            0 <= i < leaves_of(n).len() ==> !is_interior(#[trigger] leaves_of(n)[i]),
    decreases n,
{
    match n {
        FNode::Group(v) => {
            lemma_walk_yields_leaves_list(v);
            assert forall|i: int|
                0 <= i < leaves_of(n).len() implies !is_interior(
                #[trigger] leaves_of(n)[i],
            ) by {
                assert(leaves_of(n)[i] == leaves_list(v)[i]);
            }
        },
        FNode::Repeat(k, b) => {
            lemma_walk_yields_leaves(*b);
            lemma_walk_yields_leaves_repeat(leaves_of(*b), k as nat);
            assert forall|i: int|
                0 <= i < leaves_of(n).len() implies !is_interior(
                #[trigger] leaves_of(n)[i],
            ) by {
                assert(leaves_of(n)[i] == repeat_seq(leaves_of(*b), k as nat)[i]);
            }
        },
        _ => {},
    }
}

/// The leaf sequence of a node list holds no group and no repeat node.
pub proof fn lemma_walk_yields_leaves_list(v: Seq<FNode>)
    ensures
        forall|i: int|
            0 <= i < leaves_list(v).len() ==> !is_interior(#[trigger] leaves_list(v)[i]),
    decreases v,
{
    if v.len() > 0 {
        lemma_walk_yields_leaves(v[0]);
        lemma_walk_yields_leaves_list(v.drop_first());
        assert forall|i: int|
            0 <= i < leaves_list(v).len() implies !is_interior(
            #[trigger] leaves_list(v)[i],
        ) by {
            let a = leaves_of(v[0]);
            let b = leaves_list(v.drop_first());
            if i < a.len() {
                assert(leaves_list(v)[i] == a[i]);
            } else {
                assert(leaves_list(v)[i] == b[i - a.len()]);
            }
        }
    }
}

/// Repetition introduces no new elements.
pub proof fn lemma_walk_yields_leaves_repeat(sq: Seq<FNode>, k: nat)
    ensures
        (forall|i: int| 0 <= i < sq.len() ==> !is_interior(#[trigger] sq[i])) ==> forall|i: int|
            0 <= i < repeat_seq(sq, k).len() ==> !is_interior(#[trigger] repeat_seq(sq, k)[i]),
    decreases k,
{
    if k > 0 {
        lemma_walk_yields_leaves_repeat(sq, (k - 1) as nat);
        if forall|i: int| 0 <= i < sq.len() ==> !is_interior(#[trigger] sq[i]) {
            assert forall|i: int|
                0 <= i < repeat_seq(sq, k).len() implies !is_interior(
                #[trigger] repeat_seq(sq, k)[i],
            ) by {
                let r = repeat_seq(sq, (k - 1) as nat);
                if i < sq.len() {
                    assert(repeat_seq(sq, k)[i] == sq[i]);
                } else {
                    assert(repeat_seq(sq, k)[i] == r[i - sq.len()]);
                }
            }
        }
    }
}

/// One step of the walk's work stack.
enum FormatIterCmd {
    Iteration(usize, FormatNode),
    Index(usize, Vec<FormatNode>),
    Walk(FormatNode),
}

/// The leaves one stack entry still stands for.
spec fn cmd_leaves(c: FormatIterCmd) -> Seq<FNode> {
    match c {
        FormatIterCmd::Walk(n) => leaves_of(n@),
        FormatIterCmd::Index(pos, v) => if pos <= v@.len() {
            leaves_list(view_nodes(v@).skip(pos as int))
        } else {
            Seq::empty()
        },
        FormatIterCmd::Iteration(k, n) => repeat_seq(leaves_of(n@), k as nat),
    }
}

/// The leaves the whole stack still stands for, top entry first.
spec fn stack_leaves(st: Seq<FormatIterCmd>) -> Seq<FNode>
    decreases st.len(),
{
    if st.len() == 0 {
        Seq::empty()
    } else {
        cmd_leaves(st.last()) + stack_leaves(st.drop_last())
    }
}

/// The weight of one node: an upper bound on the stack work its expansion
/// can take.
spec fn node_wt(n: FNode) -> nat
    decreases n,
{
    match n {
        FNode::Group(v) => 1 + list_wt(v),
        FNode::Repeat(k, b) => 1 + (k as nat) * (node_wt(*b) + 1),
        _ => 1,
    }
}

/// Total weight of a node list, one extra unit per member.
spec fn list_wt(v: Seq<FNode>) -> nat
    decreases v,
{
    if v.len() == 0 {
        0
    } else {
        node_wt(v[0]) + 1 + list_wt(v.drop_first())
    }
}

/// The weight one stack entry still carries.
spec fn cmd_wt(c: FormatIterCmd) -> nat {
    match c {
        FormatIterCmd::Walk(n) => node_wt(n@),
        FormatIterCmd::Index(pos, v) => if pos <= v@.len() {
            list_wt(view_nodes(v@).skip(pos as int))
        } else {
            0
        },
        FormatIterCmd::Iteration(k, n) => (k as nat) * (node_wt(n@) + 1),
    }
}

/// The weight the whole stack still carries.
spec fn stack_wt(st: Seq<FormatIterCmd>) -> nat
    decreases st.len(),
{
    if st.len() == 0 {
        0
    } else {
        cmd_wt(st.last()) + stack_wt(st.drop_last())
    }
}

/// Pushing onto the stack prepends that entry's leaves and adds its weight.
proof fn lemma_stack_push(st: Seq<FormatIterCmd>, c: FormatIterCmd)
    ensures
        stack_leaves(st.push(c)) == cmd_leaves(c) + stack_leaves(st),
        stack_wt(st.push(c)) == cmd_wt(c) + stack_wt(st),
{
    assert(st.push(c).drop_last() =~= st);
    assert(st.push(c).last() == c);
}

/// A restartable walk over the leaves of a format tree.
///
/// Restarting is one assignment of a fresh walk; drivers do so when more
/// values remain than the pattern has data leaves (reversion).
pub struct FormatEvalIter {
    stack: Vec<FormatIterCmd>,
}

impl FormatEvalIter {
    /// The leaves this walk has still to yield, in order.
    pub closed spec fn rem(&self) -> Seq<FNode> {
        stack_leaves(self.stack@)
    }

    /// A fresh walk over the whole tree.
    pub fn new(root: &FormatNode) -> (it: FormatEvalIter)
        ensures
            it.rem() == leaves_of(root@),
    {
        let mut stack: Vec<FormatIterCmd> = Vec::new();
        stack.push(FormatIterCmd::Walk(root.clone()));
        proof {
            lemma_stack_push(Seq::empty(), stack@.last());
            assert(leaves_of(root@) + Seq::<FNode>::empty() =~= leaves_of(root@));
        }
        FormatEvalIter { stack }
    }

    /// Yields the next leaf, expanding groups and repeats on demand; the
    /// yielded node is never a group or a repeat.
    #[verifier::loop_isolation(false)]
    #[verifier::rlimit(100)]
    pub fn next(&mut self) -> (r: Option<FormatNode>)
        ensures
            old(self).rem().len() == 0 ==> r is None && final(self).rem() == old(self).rem(),
            old(self).rem().len() > 0 ==> (r matches Some(n) && n@ == old(self).rem()[0]
                && final(self).rem() == old(self).rem().drop_first() && !is_interior(n@)),
    {
        loop
            invariant
                stack_leaves(self.stack@) == old(self).rem(),
            decreases stack_wt(self.stack@), self.stack@.len(),
        {
            let ghost st0 = self.stack@;
            let last = match self.stack.pop() {
                Some(l) => l,
                None => {
                    proof {
                        assert(stack_leaves(self.stack@) =~= Seq::<FNode>::empty());
                    }
                    return None;
                },
            };
            proof {
                assert(st0.drop_last() =~= self.stack@);
                assert(st0.last() == last);
            }
            match last {
                FormatIterCmd::Index(pos, slice) => {
                    if pos >= slice.len() {
                        proof {
                            lemma_view_nodes_index(slice@);
                            if pos <= slice@.len() {
                                assert(view_nodes(slice@).skip(pos as int) =~= Seq::<
                                    FNode,
                                >::empty());
                            }
                            assert(cmd_leaves(st0.last()) =~= Seq::<FNode>::empty());
                            assert(cmd_wt(st0.last()) == 0);
                            assert(stack_leaves(self.stack@) =~= stack_leaves(st0));
                        }
                    } else {
                        let node = slice[pos].clone();
                        proof {
                            lemma_view_nodes_index(slice@);
                            let vs = view_nodes(slice@);
                            assert(vs.skip(pos as int)[0] == vs[pos as int]);
                            assert(vs.skip(pos as int).drop_first() =~= vs.skip(pos + 1));
                            assert(leaves_list(vs.skip(pos as int)) == leaves_of(node@)
                                + leaves_list(vs.skip(pos + 1)));
                            assert(list_wt(vs.skip(pos as int)) == node_wt(node@) + 1 + list_wt(
                                vs.skip(pos + 1),
                            ));
                        }
                        let ghost stm = self.stack@;
                        self.stack.push(FormatIterCmd::Index(pos + 1, slice));
                        proof {
                            lemma_stack_push(stm, self.stack@.last());
                        }
                        let ghost stm2 = self.stack@;
                        self.stack.push(FormatIterCmd::Walk(node));
                        proof {
                            lemma_stack_push(stm2, self.stack@.last());
                            assert(stack_leaves(self.stack@) =~= stack_leaves(st0));
                            assert(stack_wt(self.stack@) < stack_wt(st0));
                        }
                    }
                },
                FormatIterCmd::Iteration(it, node) => {
                    if it == 0 {
                        proof {
                            assert(cmd_leaves(st0.last()) =~= Seq::<FNode>::empty());
                            assert(stack_leaves(self.stack@) =~= stack_leaves(st0));
                            assert(cmd_wt(st0.last()) == 0);
                        }
                    } else {
                        let copy = node.clone();
                        proof {
                            assert(repeat_seq(leaves_of(node@), it as nat) == leaves_of(node@)
                                + repeat_seq(leaves_of(node@), (it - 1) as nat));
                            let ghost kk = it as nat;
                            let ghost w = node_wt(node@) + 1;
                            assert(kk >= 1 ==> kk * w == w + (kk - 1) * w) by (nonlinear_arith);
                        }
                        let ghost stm = self.stack@;
                        self.stack.push(FormatIterCmd::Iteration(it - 1, node));
                        proof {
                            lemma_stack_push(stm, self.stack@.last());
                        }
                        let ghost stm2 = self.stack@;
                        self.stack.push(FormatIterCmd::Walk(copy));
                        proof {
                            lemma_stack_push(stm2, self.stack@.last());
                            assert(stack_leaves(self.stack@) =~= stack_leaves(st0));
                            assert(stack_wt(self.stack@) < stack_wt(st0));
                        }
                    }
                },
                FormatIterCmd::Walk(node) => {
                    match node {
                        FormatNode::Group(v) => {
                            proof {
                                assert(view_nodes(v@).skip(0) =~= view_nodes(v@));
                            }
                            let ghost stm = self.stack@;
                            self.stack.push(FormatIterCmd::Index(0, v));
                            proof {
                                lemma_stack_push(stm, self.stack@.last());
                                assert(stack_leaves(self.stack@) =~= stack_leaves(st0));
                                assert(stack_wt(self.stack@) < stack_wt(st0));
                            }
                        },
                        FormatNode::Repeat(r, b) => {
                            let ghost stm = self.stack@;
                            self.stack.push(FormatIterCmd::Iteration(r, *b));
                            proof {
                                lemma_stack_push(stm, self.stack@.last());
                                assert(stack_leaves(self.stack@) =~= stack_leaves(st0));
                                assert(stack_wt(self.stack@) < stack_wt(st0));
                            }
                        },
                        x => {
                            proof {
                                assert(leaves_of(x@) =~= seq![x@]);
                                assert(stack_leaves(st0) == seq![x@] + stack_leaves(self.stack@));
                                assert(stack_leaves(self.stack@) =~= stack_leaves(st0).drop_first());
                            }
                            return Some(x);
                        },
                    }
                },
            }
        }
    }
}

} // verus!
