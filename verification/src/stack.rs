use std::rc::Rc;

use vstd::prelude::*;

use crate::binary_grammar::BinaryGrammar;
use crate::binary_tree::BinaryTree;
use crate::token::Token;

verus! {

/// `Rc::clone`: another handle to the same allocation, hence the same value.
#[verifier::external_body]
pub(crate) fn rc_clone<A>(rc: &Rc<A>) -> (r: Rc<A>)
    ensures
        r == *rc,
{
    Rc::clone(rc)
}

/// A persistent stack: pushing shares the stack below, so copies are cheap.
#[derive(Debug)]
pub struct Stack<S>(pub Option<Rc<(S, Stack<S>)>>);

impl<S> Stack<S> {
    /// The elements, top first.
    pub open spec fn items(self) -> Seq<S>
        decreases self,
    {
        match self.0 {
            None => Seq::empty(),
            Some(rc) => seq![rc.0] + rc.1.items(),
        }
    }

    /// Returns the stack with `element` on top of `self`.
    pub fn push(self, element: S) -> (r: Self)
        ensures
            r.items() == seq![element] + self.items(),
    {
        Stack(Some(Rc::new((element, self))))
    }
}

impl<S> Clone for Stack<S> {
    fn clone(&self) -> (r: Self)
        ensures
            r == *self,
    {
        match &self.0 {
            None => Stack(None),
            Some(rc) => Stack(Some(rc_clone(rc))),
        }
    }
}

impl<S> Default for Stack<S> {
    fn default() -> (r: Self)
        ensures
            r.items() == Seq::<S>::empty(),
    {
        Stack(None)
    }
}

/// The stacks of a sequence of stacks, each as its elements.
pub open spec fn stacks_items<S>(stacks: Seq<Stack<S>>) -> Seq<Seq<S>> {
    stacks.map_values(|s: Stack<S>| s.items())
}

/// The stacks that reducing `tree` with the trees below it gives: while the
/// grammar has a parent for the top of `stack` and `tree`, the two become
/// one node, and each such step gives one stack.
pub open spec fn reductions<T: Token>(
    stack: Seq<BinaryTree<T>>,
    tree: BinaryTree<T>,
    g: BinaryGrammar<T>,
) -> Seq<Seq<BinaryTree<T>>>
    decreases stack.len(),
{
    if stack.len() == 0 {
        Seq::empty()
    } else {
        match g.parent(stack[0].root_label(), tree.root_label()) {
            None => Seq::empty(),
            Some(p) => {
                let node = BinaryTree::Nonterminal {
                    label: p,
                    left: Box::new(stack[0]),
                    right: Box::new(tree),
                };
                seq![seq![node] + stack.drop_first()] + reductions(stack.drop_first(), node, g)
            },
        }
    }
}

/// The stacks that shifting `tree` onto `stack` gives: `tree` pushed, then
/// each successive reduction.
pub open spec fn shift_reductions<T: Token>(
    stack: Seq<BinaryTree<T>>,
    tree: BinaryTree<T>,
    g: BinaryGrammar<T>,
) -> Seq<Seq<BinaryTree<T>>> {
    seq![seq![tree] + stack] + reductions(stack, tree, g)
}

/// The tokens that a stack of trees spells: the bottom tree's first, the top tree's last.
pub open spec fn stack_tokens<T>(stack: Seq<BinaryTree<T>>) -> Seq<T>
    decreases stack.len(),
{
    if stack.len() == 0 {
        Seq::empty()
    } else {
        stack_tokens(stack.drop_first()) + stack[0].tokens()
    }
}

/// A stack explains the input `w` when the grammar derives each of its trees
/// and the trees spell `w`.
pub open spec fn explains<T: Token>(
    g: BinaryGrammar<T>,
    stack: Seq<BinaryTree<T>>,
    w: Seq<T>,
) -> bool {
    &&& forall|i: int| 0 <= i < stack.len() ==> g.derives(#[trigger] stack[i])
    &&& stack_tokens(stack) == w
}

proof fn lemma_stack_tokens_push<T>(tree: BinaryTree<T>, stack: Seq<BinaryTree<T>>)
    ensures
        stack_tokens(seq![tree] + stack) == stack_tokens(stack) + tree.tokens(),
{
    assert((seq![tree] + stack).drop_first() =~= stack);
}

/// Each reduction keeps the stack explaining the same input.
pub proof fn lemma_reductions_explain<T: Token>(
    g: BinaryGrammar<T>,
    stack: Seq<BinaryTree<T>>,
    tree: BinaryTree<T>,
    w: Seq<T>,
)
    requires
        explains(g, seq![tree] + stack, w),
    ensures
        forall|k: int|
            0 <= k < reductions(stack, tree, g).len() ==> explains(
                g,
                #[trigger] reductions(stack, tree, g)[k],
                w,
            ),
    decreases stack.len(),
{
    if stack.len() > 0 {
        match g.parent(stack[0].root_label(), tree.root_label()) {
            None => {},
            Some(p) => {
                let rest = stack.drop_first();
                let node = BinaryTree::Nonterminal {
                    label: p,
                    left: Box::new(stack[0]),
                    right: Box::new(tree),
                };
                let top = seq![node] + rest;
                assert(g.derives(stack[0])) by {
                    assert((seq![tree] + stack)[1] == stack[0]);
                }
                assert(g.derives(tree)) by {
                    assert((seq![tree] + stack)[0] == tree);
                }
                assert(g.derives(node));
                assert forall|i: int| 0 <= i < top.len() implies g.derives(#[trigger] top[i]) by {
                    if i > 0 {
                        assert(top[i] == (seq![tree] + stack)[i + 1]);
                    }
                }
                lemma_stack_tokens_push(tree, stack);
                lemma_stack_tokens_push(stack[0], rest);
                lemma_stack_tokens_push(node, rest);
                assert(stack == seq![stack[0]] + rest);
                assert(stack_tokens(top) == w);
                lemma_reductions_explain(g, rest, node, w);
                let r = reductions(stack, tree, g);
                assert(r == seq![top] + reductions(rest, node, g));
                assert forall|k: int| 0 <= k < r.len() implies explains(g, #[trigger] r[k], w) by {
                    if k > 0 {
                        assert(r[k] == reductions(rest, node, g)[k - 1]);
                    }
                }
            },
        }
    }
}

/// Every stack that shifting `tree` gives explains the input when the pushed stack does.
pub proof fn lemma_shift_reductions_explain<T: Token>(
    g: BinaryGrammar<T>,
    stack: Seq<BinaryTree<T>>,
    tree: BinaryTree<T>,
    w: Seq<T>,
)
    requires
        explains(g, seq![tree] + stack, w),
    ensures
        forall|k: int|
            0 <= k < shift_reductions(stack, tree, g).len() ==> explains(
                g,
                #[trigger] shift_reductions(stack, tree, g)[k],
                w,
            ),
{
    lemma_reductions_explain(g, stack, tree, w);
    let r = shift_reductions(stack, tree, g);
    assert forall|k: int| 0 <= k < r.len() implies explains(g, #[trigger] r[k], w) by {
        if k > 0 {
            assert(r[k] == reductions(stack, tree, g)[k - 1]);
        }
    }
}

/// Takes a tree apart along its right edge: the left children pushed onto
/// `below`, the lowest on top, and the rightmost leaf.
pub open spec fn unfold_right<T>(t: BinaryTree<T>, below: Seq<BinaryTree<T>>) -> (
    Seq<BinaryTree<T>>,
    BinaryTree<T>,
)
    decreases t,
{
    match t {
        BinaryTree::Terminal { .. } => (below, t),
        BinaryTree::Nonterminal { left, right, .. } => unfold_right(*right, seq![*left] + below),
    }
}

proof fn lemma_reductions_unfold<T: Token>(
    stack: Seq<BinaryTree<T>>,
    tree: BinaryTree<T>,
    g: BinaryGrammar<T>,
)
    ensures
        forall|k: int|
            0 <= k < reductions(stack, tree, g).len() ==> {
                &&& (#[trigger] reductions(stack, tree, g)[k]).len() == stack.len() - k
                &&& stack.len() - k > 0
                &&& unfold_right(
                    reductions(stack, tree, g)[k][0],
                    reductions(stack, tree, g)[k].drop_first(),
                ) == unfold_right(tree, stack)
            },
    decreases stack.len(),
{
    if stack.len() > 0 {
        match g.parent(stack[0].root_label(), tree.root_label()) {
            None => {},
            Some(p) => {
                let rest = stack.drop_first();
                let node = BinaryTree::Nonterminal {
                    label: p,
                    left: Box::new(stack[0]),
                    right: Box::new(tree),
                };
                lemma_reductions_unfold(rest, node, g);
                assert(seq![stack[0]] + rest =~= stack);
                assert(unfold_right(node, rest) == unfold_right(tree, stack));
                let rs = reductions(stack, tree, g);
                let first = seq![node] + rest;
                assert(first.drop_first() =~= rest);
                assert forall|k: int| 0 <= k < rs.len() implies {
                    &&& (#[trigger] rs[k]).len() == stack.len() - k
                    &&& stack.len() - k > 0
                    &&& unfold_right(rs[k][0], rs[k].drop_first()) == unfold_right(tree, stack)
                } by {
                    if k > 0 {
                        assert(rs[k] == reductions(rest, node, g)[k - 1]);
                    } else {
                        assert(rs[k] == first);
                    }
                }
            },
        }
    }
}

/// Each stack that shifting `tree` and reducing gives is one tree shorter
/// than the one before, and unfolding the right edge of its top tree gives
/// back what was shifted and the stack it was shifted onto.
pub proof fn lemma_shift_reductions_unfold<T: Token>(
    stack: Seq<BinaryTree<T>>,
    tree: BinaryTree<T>,
    g: BinaryGrammar<T>,
)
    ensures
        forall|k: int|
            0 <= k < shift_reductions(stack, tree, g).len() ==> {
                &&& (#[trigger] shift_reductions(stack, tree, g)[k]).len() == stack.len() + 1 - k
                &&& stack.len() + 1 - k > 0
                &&& unfold_right(
                    shift_reductions(stack, tree, g)[k][0],
                    shift_reductions(stack, tree, g)[k].drop_first(),
                ) == unfold_right(tree, stack)
            },
{
    lemma_reductions_unfold(stack, tree, g);
    let rs = shift_reductions(stack, tree, g);
    let first = seq![tree] + stack;
    assert(first.drop_first() =~= stack);
    assert forall|k: int| 0 <= k < rs.len() implies {
        &&& (#[trigger] rs[k]).len() == stack.len() + 1 - k
        &&& stack.len() + 1 - k > 0
        &&& unfold_right(rs[k][0], rs[k].drop_first()) == unfold_right(tree, stack)
    } by {
        if k > 0 {
            assert(rs[k] == reductions(stack, tree, g)[k - 1]);
        } else {
            assert(rs[k] == first);
        }
    }
}

/// Shifting the rightmost leaf of a derived tree onto the stack of its left
/// children rebuilds the tree: the stacks of shifting the tree itself are a
/// tail of the stacks of shifting the leaf.
pub proof fn lemma_unfold_right<T: Token>(
    g: BinaryGrammar<T>,
    t: BinaryTree<T>,
    below: Seq<BinaryTree<T>>,
)
    requires
        g.derives(t),
        forall|i: int| 0 <= i < below.len() ==> g.derives(#[trigger] below[i]),
    ensures
        unfold_right(t, below).1 is Terminal,
        g.derives(unfold_right(t, below).1),
        forall|i: int|
            0 <= i < unfold_right(t, below).0.len() ==> g.derives(
                #[trigger] unfold_right(t, below).0[i],
            ),
        stack_tokens(unfold_right(t, below).0) + unfold_right(t, below).1.tokens() == stack_tokens(
            below,
        ) + t.tokens(),
        exists|k: int|
            0 <= k <= shift_reductions(unfold_right(t, below).0, unfold_right(t, below).1, g).len()
                && #[trigger] shift_reductions(
                unfold_right(t, below).0,
                unfold_right(t, below).1,
                g,
            ).skip(k) == shift_reductions(below, t, g),
    decreases t,
{
    match t {
        BinaryTree::Terminal { .. } => {
            let sr = shift_reductions(below, t, g);
            assert(sr.skip(0) =~= sr);
        },
        BinaryTree::Nonterminal { label, left, right } => {
            let below2 = seq![*left] + below;
            assert forall|i: int| 0 <= i < below2.len() implies g.derives(#[trigger] below2[i]) by {
                if i > 0 {
                    assert(below2[i] == below[i - 1]);
                }
            }
            lemma_unfold_right(g, *right, below2);
            let (p, leaf) = unfold_right(*right, below2);
            assert(unfold_right(t, below) == (p, leaf));
            lemma_stack_tokens_push(*left, below);
            assert(stack_tokens(below) + t.tokens() == stack_tokens(below) + left.tokens()
                + right.tokens());
            let sr_leaf = shift_reductions(p, leaf, g);
            let k = choose|k: int|
                0 <= k <= sr_leaf.len() && #[trigger] sr_leaf.skip(k) == shift_reductions(
                    below2,
                    *right,
                    g,
                );
            assert(below2.drop_first() =~= below);
            assert(below2[0] == *left);
            let node = BinaryTree::Nonterminal {
                label: label,
                left: Box::new(below2[0]),
                right: Box::new(*right),
            };
            assert(node == t);
            let sr_right = shift_reductions(below2, *right, g);
            assert(reductions(below2, *right, g) == seq![seq![node] + below]
                + reductions(below, node, g));
            assert(sr_right.skip(1) =~= shift_reductions(below, t, g));
            assert(sr_leaf.skip(k + 1) =~= sr_right.skip(1));
        },
    }
}

/// Popping what was pushed gives back the element and the stack below:
/// the top of `push(s, x)` is `x`, and below it lies `s`.
pub proof fn lemma_push_then_pop<S>(s: Stack<S>, x: S, pushed: Stack<S>)
    requires
        pushed.items() == seq![x] + s.items(),
    ensures
        pushed.items().len() > 0,
        pushed.items()[0] == x,
        pushed.items().drop_first() == s.items(),
{
    assert(pushed.items().drop_first() =~= s.items());
}

impl<T: Token> Stack<BinaryTree<T>> {
    /// Returns the top element; the stack must not be empty.
    pub fn top(&self) -> (r: BinaryTree<T>)
        requires
            self.items().len() > 0,
        ensures
            r == self.items()[0],
    {
        match &self.0 {
            Some(rc) => rc.0.clone(),
            None => {
                proof {
                    assert(false);
                }
                unreached()
            },
        }
    }

    /// Splits a non-empty stack into its top and the stack below.
    fn pop(self) -> (r: (BinaryTree<T>, Self))
        requires
            self.items().len() > 0,
        ensures
            r.0 == self.items()[0],
            r.1.items() == self.items().drop_first(),
    {
        match &self.0 {
            Some(rc) => {
                let (top, rest) = &**rc;
                proof {
                    assert(self.items().drop_first() =~= rest.items());
                }
                (top.clone(), rest.clone())
            },
            None => {
                proof {
                    assert(false);
                }
                unreached()
            },
        }
    }

    /// Shifts `tree` onto the stack and reduces as far as the grammar allows,
    /// returning the stack after each step: first with `tree` pushed, then
    /// after each reduction of the top two trees into their parent.
    pub fn shift_reduce(self, tree: BinaryTree<T>, grammar: &BinaryGrammar<T>) -> (r: Vec<Self>)
        ensures
            stacks_items(r@) == shift_reductions(self.items(), tree, *grammar),
    {
        let ghost stack0 = self.items();
        let ghost tree0 = tree;
        let mut stack = self.clone();
        let mut tree = tree;
        let mut retval: Vec<Self> = Vec::new();
        retval.push(stack.clone().push(tree.clone()));
        proof {
            assert(stacks_items(retval@) =~= seq![seq![tree0] + stack0]);
        }
        loop
            invariant
                stacks_items(retval@) + reductions(stack.items(), tree, *grammar)
                    == shift_reductions(stack0, tree0, *grammar),
            ensures
                stacks_items(retval@) == shift_reductions(stack0, tree0, *grammar),
            decreases stack.items().len(),
        {
            if stack.0.is_none() {
                proof {
                    assert(stack.items().len() == 0);
                    assert(stacks_items(retval@) + reductions(stack.items(), tree, *grammar)
                        =~= stacks_items(retval@));
                }
                break ;
            }
            let ghost s = stack.items();
            let (popped, rest) = stack.pop();
            let labels = (popped.label(), tree.label());
            match grammar.lookup_nonterminals(&labels) {
                None => {
                    proof {
                        assert(stacks_items(retval@) + reductions(s, tree, *grammar)
                            =~= stacks_items(retval@));
                    }
                    break ;
                },
                Some(new_nonterminal_label) => {
                    let new_nonterminal = BinaryTree::Nonterminal {
                        label: new_nonterminal_label.clone(),
                        left: Box::new(popped),
                        right: Box::new(tree),
                    };
                    let ghost before = stacks_items(retval@);
                    retval.push(rest.clone().push(new_nonterminal.clone()));
                    proof {
                        assert(stacks_items(retval@) =~= before.push(
                            seq![new_nonterminal] + s.drop_first(),
                        ));
                        assert(reductions(s, tree, *grammar) == seq![seq![new_nonterminal]
                            + s.drop_first()] + reductions(s.drop_first(), new_nonterminal, *grammar));
                        assert(stacks_items(retval@) + reductions(rest.items(), new_nonterminal, *grammar)
                            =~= before + reductions(s, tree, *grammar));
                    }
                    tree = new_nonterminal;
                },
            }
            stack = rest;
        }
        retval
    }
}

} // verus!
