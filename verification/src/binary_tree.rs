use vstd::prelude::*;

use crate::token::Token;

verus! {

/// A binary parse tree: leaves carry a token, inner nodes two children.
/// Every node carries the label of the grammar symbol it stands for.
#[derive(Debug, PartialEq, Eq, Hash)]
pub enum BinaryTree<T> {
    Terminal { label: String, token: T },
    Nonterminal { label: String, left: Box<BinaryTree<T>>, right: Box<BinaryTree<T>> },
}

impl<T> BinaryTree<T> {
    /// The label at the root, as a sequence of characters.
    pub open spec fn root_label(self) -> Seq<char> {
        match self {
            BinaryTree::Terminal { label, .. } => label@,
            BinaryTree::Nonterminal { label, .. } => label@,
        }
    }

    /// The tokens at the leaves, from left to right.
    pub open spec fn tokens(self) -> Seq<T>
        decreases self,
    {
        match self {
            BinaryTree::Terminal { token, .. } => seq![token],
            BinaryTree::Nonterminal { left, right, .. } => left.tokens() + right.tokens(),
        }
    }

    /// The number of nodes.
    pub open spec fn size(self) -> nat
        decreases self,
    {
        match self {
            BinaryTree::Terminal { .. } => 1,
            BinaryTree::Nonterminal { left, right, .. } => 1 + left.size() + right.size(),
        }
    }

    /// Returns the label at the root.
    pub fn label(&self) -> (r: String)
        ensures
            r@ == self.root_label(),
    {
        match self {
            BinaryTree::Terminal { label, .. } => label.clone(),
            BinaryTree::Nonterminal { label, .. } => label.clone(),
        }
    }
}

/// Every tree has at least one leaf.
pub proof fn lemma_tokens_nonempty<T>(t: BinaryTree<T>)
    ensures
        t.tokens().len() >= 1,
    decreases t,
{
    match t {
        BinaryTree::Terminal { .. } => {},
        BinaryTree::Nonterminal { left, right, .. } => {
            lemma_tokens_nonempty(*left);
        },
    }
}

impl<T: Token> Clone for BinaryTree<T> {
    fn clone(&self) -> (r: Self)
        ensures
            r == *self,
        decreases self,
    {
        match self {
            BinaryTree::Terminal { label, token } => BinaryTree::Terminal {
                label: label.clone(),
                token: *token,
            },
            BinaryTree::Nonterminal { label, left, right } => {
                let l = (&**left).clone();
                let r = (&**right).clone();
                BinaryTree::Nonterminal { label: label.clone(), left: Box::new(l), right: Box::new(r) }
            },
        }
    }
}

/// `String::push`: appends the character at the end.
#[verifier::external_body]
fn push_char(s: &mut String, c: char)
    ensures
        final(s)@ == old(s)@.push(c),
{
    s.push(c);
}

impl BinaryTree<char> {
    /// The tree as text: a leaf is its token, an inner node its two
    /// children in parentheses, separated by a space.
    pub open spec fn shown(self) -> Seq<char>
        decreases self,
    {
        match self {
            BinaryTree::Terminal { token, .. } => seq![token],
            BinaryTree::Nonterminal { left, right, .. } => seq!['('] + left.shown() + seq![' ']
                + right.shown() + seq![')'],
        }
    }

    fn write_into(&self, out: &mut String)
        ensures
            final(out)@ == old(out)@ + self.shown(),
        decreases self,
    {
        match self {
            BinaryTree::Terminal { token, .. } => {
                push_char(out, *token);
                proof {
                    assert(final(out)@ =~= old(out)@ + self.shown());
                }
            },
            BinaryTree::Nonterminal { left, right, .. } => {
                let ghost start = out@;
                push_char(out, '(');
                (&**left).write_into(out);
                push_char(out, ' ');
                (&**right).write_into(out);
                push_char(out, ')');
                proof {
                    assert(out@ =~= start + self.shown());
                }
            },
        }
    }

    /// Returns the tree as text, as `shown` says: `(a (b c))` for a tree
    /// whose left leaf is `a` and whose right child has the leaves `b` and `c`.
    pub fn to_text(&self) -> (r: String)
        ensures
            r@ == self.shown(),
    {
        let mut out = String::new();
        self.write_into(&mut out);
        proof {
            assert(out@ =~= self.shown());
        }
        out
    }
}

} // verus!
