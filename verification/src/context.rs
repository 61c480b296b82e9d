use std::rc::Rc;

use vstd::prelude::*;

use crate::binary_grammar::{label_views, BinaryGrammar};
use crate::binary_tree::{lemma_tokens_nonempty, BinaryTree};
use crate::seq_facts::{
    lemma_filter_map_member, lemma_filter_map_source, lemma_flatten_all, lemma_flatten_member,
};
use crate::stack::{rc_clone, stack_tokens};
use crate::token::Token;

verus! {

/// A symbol that has found its left child and waits for the right one:
/// applied to a right child, it gives the parents of the pair.
#[derive(Debug)]
pub struct Partial<N> {
    pub left: N,
}

/// An entry of a context: a complete symbol, or an incomplete one waiting
/// for its right child.
#[derive(Debug)]
pub enum Symbol<N> {
    Complete(N),
    Incomplete(Rc<Partial<N>>),
}

/// A symbol as labels: complete, or incomplete with the label of its left child.
pub enum SymbolView<V> {
    Complete(V),
    Incomplete(V),
}

impl<N: View> View for Symbol<N> {
    type V = SymbolView<N::V>;

    open spec fn view(&self) -> SymbolView<N::V> {
        match self {
            Symbol::Complete(n) => SymbolView::Complete(n@),
            Symbol::Incomplete(p) => SymbolView::Incomplete(p.left@),
        }
    }
}

impl<V> SymbolView<V> {
    /// The label the symbol stands for: its own when complete, its left
    /// child's when incomplete.
    pub open spec fn label(self) -> V {
        match self {
            SymbolView::Complete(v) => v,
            SymbolView::Incomplete(v) => v,
        }
    }
}

/// A grammar read as a left-corner parser reads it: a token gives its labels,
/// a label that starts some binary rule gives a partial, and a partial
/// applied to a right child gives the parents.
#[derive(Debug)]
pub struct PartialGrammar<T>(pub BinaryGrammar<T>);

/// The labels that `token` has in `g`, none when it has no terminal rule.
pub open spec fn unary_labels<T: Token>(g: BinaryGrammar<T>, token: T) -> Seq<Seq<char>> {
    match g.terminal_labels(token) {
        Some(ls) => label_views(ls),
        None => Seq::empty(),
    }
}

/// The labels among `labels` that start some binary rule of `g`, in order.
pub open spec fn left_corners<T: Token>(g: BinaryGrammar<T>, labels: Seq<Seq<char>>) -> Seq<
    Seq<char>,
> {
    labels.filter_map(|l: Seq<char>| if g.is_left_corner(l) { Some(l) } else { None })
}

/// The symbols that reading `token` offers: each of its labels as a complete
/// symbol, then those that start a binary rule as incomplete symbols.
pub open spec fn token_symbols<T: Token>(g: BinaryGrammar<T>, token: T) -> Seq<
    SymbolView<Seq<char>>,
> {
    unary_labels(g, token).map_values(|l: Seq<char>| SymbolView::Complete(l)) + left_corners(
        g,
        unary_labels(g, token),
    ).map_values(|l: Seq<char>| SymbolView::Incomplete(l))
}

impl<T: Token> PartialGrammar<T> {
    /// The labels of `token`; empty when the grammar has no terminal rule for it.
    pub fn apply_unary(&self, token: &T) -> (r: Vec<String>)
        ensures
            label_views(r@) == unary_labels(self.0, *token),
    {
        match self.0.lookup_terminals(token) {
            Some(v) => v.clone(),
            None => Vec::new(),
        }
    }

    /// A partial for each of `labels` that starts some binary rule, in order.
    pub fn apply_binary(&self, labels: &Vec<String>) -> (r: Vec<Rc<Partial<String>>>)
        ensures
            r@.map_values(|p: Rc<Partial<String>>| p.left@) == left_corners(self.0, label_views(labels@)),
    {
        let mut out: Vec<Rc<Partial<String>>> = Vec::new();
        let n = labels.len();
        let mut i: usize = 0;
        while i < n
            invariant
                n == labels@.len(),
                i <= n,
                out@.map_values(|p: Rc<Partial<String>>| p.left@) == left_corners(
                    self.0,
                    label_views(labels@.take(i as int)),
                ),
            decreases n - i,
        {
            proof {
                assert(label_views(labels@.take(i + 1)).drop_last() =~= label_views(
                    labels@.take(i as int),
                ));
                assert(label_views(labels@.take(i + 1)).last() == labels@[i as int]@);
            }
            if self.0.has_left_corner(&labels[i]) {
                let ghost before = out@;
                out.push(Rc::new(Partial { left: labels[i].clone() }));
                proof {
                    assert(out@.map_values(|p: Rc<Partial<String>>| p.left@) =~= before.map_values(
                        |p: Rc<Partial<String>>| p.left@,
                    ).push(labels@[i as int]@));
                }
            }
            i = i + 1;
        }
        proof {
            assert(labels@.take(n as int) =~= labels@);
        }
        out
    }

    /// The parents of the partial's left child and `right`: at most one.
    pub fn apply_partial(&self, partial: &Partial<String>, right: &String) -> (r: Vec<String>)
        ensures
            r@.len() <= 1,
            r@.len() == 1 <==> self.0.parent(partial.left@, right@) is Some,
            r@.len() == 1 ==> self.0.parent(partial.left@, right@) == Some(r@[0]),
    {
        let labels = (partial.left.clone(), right.clone());
        match self.0.lookup_nonterminals(&labels) {
            Some(p) => vec![p.clone()],
            None => Vec::new(),
        }
    }
}

/// A stack of symbols, shared below the top as `Stack` is.
#[derive(Debug)]
pub struct Context<N>(pub Option<Rc<(Symbol<N>, Context<N>)>>);

impl<N> Context<N> {
    /// The symbols, top first.
    pub open spec fn symbols(self) -> Seq<Symbol<N>>
        decreases self,
    {
        match self.0 {
            None => Seq::empty(),
            Some(rc) => seq![rc.0] + rc.1.symbols(),
        }
    }

    /// Returns the context with `symbol` on top of `self`.
    pub fn push(self, symbol: Symbol<N>) -> (r: Self)
        ensures
            r.symbols() == seq![symbol] + self.symbols(),
    {
        Context(Some(Rc::new((symbol, self))))
    }
}

impl<N: View> Context<N> {
    /// The symbols as labels, top first.
    pub open spec fn views(self) -> Seq<SymbolView<N::V>> {
        self.symbols().map_values(|s: Symbol<N>| s@)
    }
}

impl<N> Clone for Context<N> {
    fn clone(&self) -> (r: Self)
        ensures
            r == *self,
    {
        match &self.0 {
            None => Context(None),
            Some(rc) => Context(Some(rc_clone(rc))),
        }
    }
}

impl<N> Default for Context<N> {
    fn default() -> (r: Self)
        ensures
            r.symbols() == Seq::<Symbol<N>>::empty(),
    {
        Context(None)
    }
}

/// The contexts of a sequence of contexts, each as labels.
pub open spec fn contexts_views(cs: Seq<Context<String>>) -> Seq<Seq<SymbolView<Seq<char>>>> {
    cs.map_values(|c: Context<String>| c.views())
}

/// The contexts that offering `symbol` to the context `ctx` gives:
/// - onto an empty context the symbol is pushed;
/// - a complete symbol on top accepts nothing;
/// - an incomplete symbol onto an incomplete top is pushed;
/// - a complete symbol completes an incomplete top: the parent, if any, is
///   offered to the rest of the context as a complete symbol, and then, if it
///   starts a binary rule, as an incomplete one.
pub open spec fn context_apply<T: Token>(
    ctx: Seq<SymbolView<Seq<char>>>,
    symbol: SymbolView<Seq<char>>,
    g: BinaryGrammar<T>,
) -> Seq<Seq<SymbolView<Seq<char>>>>
    decreases ctx.len(),
{
    if ctx.len() == 0 {
        seq![seq![symbol]]
    } else {
        let rest = ctx.drop_first();
        match ctx[0] {
            SymbolView::Complete(_) => Seq::empty(),
            SymbolView::Incomplete(left) => match symbol {
                SymbolView::Incomplete(_) => seq![seq![symbol] + ctx],
                SymbolView::Complete(right) => match g.parent(left, right) {
                    None => Seq::empty(),
                    Some(p) => context_apply(rest, SymbolView::Complete(p@), g) + if g.is_left_corner(
                        p@,
                    ) {
                        context_apply(rest, SymbolView::Incomplete(p@), g)
                    } else {
                        Seq::empty()
                    },
                },
            },
        }
    }
}

/// The contexts that reading `token` gives from `ctx`: those of each of the
/// token's symbols, in order.
pub open spec fn context_apply_token<T: Token>(
    ctx: Seq<SymbolView<Seq<char>>>,
    token: T,
    g: BinaryGrammar<T>,
) -> Seq<Seq<SymbolView<Seq<char>>>> {
    token_symbols(g, token).map_values(|s: SymbolView<Seq<char>>| context_apply(ctx, s, g)).flatten()
}

/// The left corners among a single label.
proof fn lemma_left_corners_single<T: Token>(g: BinaryGrammar<T>, l: Seq<char>)
    ensures
        left_corners(g, seq![l]) == if g.is_left_corner(l) {
            seq![l]
        } else {
            Seq::<Seq<char>>::empty()
        },
{
    let s = seq![l];
    assert(s.drop_last() =~= Seq::<Seq<char>>::empty());
    assert(s.last() == l);
    reveal_with_fuel(Seq::filter_map, 2);
    if g.is_left_corner(l) {
        assert(left_corners(g, s) =~= seq![l]);
    } else {
        assert(left_corners(g, s) =~= Seq::<Seq<char>>::empty());
    }
}

impl Context<String> {
    /// Offers `symbol` to the context; see `context_apply` for the contexts
    /// it gives.
    pub fn apply<T: Token>(&self, symbol: Symbol<String>, grammar: &PartialGrammar<T>) -> (r: Vec<
        Self,
    >)
        ensures
            contexts_views(r@) == context_apply(self.views(), symbol@, grammar.0),
        decreases self.symbols().len(),
    {
        match &self.0 {
            None => {
                let r = vec![self.clone().push(symbol)];
                proof {
                    assert(r@[0].views() =~= seq![symbol@]);
                    assert(contexts_views(r@) =~= seq![seq![symbol@]]);
                }
                r
            },
            Some(rc) => {
                let (top, rest) = &**rc;
                proof {
                    assert(self.symbols() == seq![*top] + rest.symbols());
                    assert(self.views().drop_first() =~= rest.views());
                    assert(self.views()[0] == top@);
                }
                match top {
                    Symbol::Complete(_) => {
                        let r: Vec<Self> = Vec::new();
                        proof {
                            assert(contexts_views(r@) =~= Seq::<Seq<SymbolView<Seq<char>>>>::empty());
                        }
                        r
                    },
                    Symbol::Incomplete(p) => match symbol {
                        Symbol::Incomplete(q) => {
                            let symbol = Symbol::Incomplete(q);
                            let r = vec![self.clone().push(symbol)];
                            proof {
                                assert(r@[0].views() =~= seq![symbol@] + self.views());
                                assert(contexts_views(r@) =~= seq![seq![symbol@] + self.views()]);
                            }
                            r
                        },
                        Symbol::Complete(s) => {
                            let new_ss = grammar.apply_partial(p, &s);
                            let mut contextual: Vec<Self> = Vec::new();
                            if new_ss.len() == 1 {
                                contextual = rest.apply(Symbol::Complete(new_ss[0].clone()), grammar);
                            }
                            let partials = grammar.apply_binary(&new_ss);
                            proof {
                                let lv = label_views(new_ss@);
                                if new_ss@.len() == 1 {
                                    assert(lv.drop_last() =~= Seq::<Seq<char>>::empty());
                                } else {
                                    assert(lv =~= Seq::<Seq<char>>::empty());
                                }
                                assert(partials@.len() == left_corners(grammar.0, lv).len());
                            }
                            let mut recursive: Vec<Self> = Vec::new();
                            if partials.len() == 1 {
                                proof {
                                    assert(partials@.map_values(|q: Rc<Partial<String>>| q.left@)[0]
                                        == partials@[0].left@);
                                }
                                recursive = rest.apply(
                                    Symbol::Incomplete(rc_clone(&partials[0])),
                                    grammar,
                                );
                            }
                            let ghost cv = contexts_views(contextual@);
                            let ghost rv = contexts_views(recursive@);
                            contextual.append(&mut recursive);
                            proof {
                                assert(contexts_views(contextual@) =~= cv + rv);
                                let ctx = self.views();
                                assert(ctx[0] == SymbolView::Incomplete(p.left@));
                                assert(symbol@ == SymbolView::<Seq<char>>::Complete(s@));
                                if new_ss@.len() == 0 {
                                    assert(cv =~= Seq::<Seq<SymbolView<Seq<char>>>>::empty());
                                    assert(rv =~= Seq::<Seq<SymbolView<Seq<char>>>>::empty());
                                    assert(grammar.0.parent(p.left@, s@) is None);
                                } else {
                                    let pp = grammar.0.parent(p.left@, s@).unwrap();
                                    assert(new_ss@[0] == pp);
                                    let lv = label_views(new_ss@);
                                    assert(lv =~= seq![pp@]);
                                    assert(cv == context_apply(rest.views(), SymbolView::Complete(pp@), grammar.0));
                                    lemma_left_corners_single(grammar.0, pp@);
                                    if grammar.0.is_left_corner(pp@) {
                                        assert(left_corners(grammar.0, lv) =~= seq![pp@]);
                                        assert(partials@[0].left@ == pp@);
                                        assert(rv == context_apply(rest.views(), SymbolView::Incomplete(pp@), grammar.0));
                                    } else {
                                        assert(left_corners(grammar.0, lv) =~= Seq::<Seq<char>>::empty());
                                        assert(rv =~= Seq::<Seq<SymbolView<Seq<char>>>>::empty());
                                    }
                                }
                            }
                            contextual
                        },
                    },
                }
            },
        }
    }

    /// Reads one token: offers each of its symbols to the context, in the
    /// order of `token_symbols`, and gathers the contexts they give.
    pub fn apply_token<T: Token>(self, token: &T, g: &PartialGrammar<T>) -> (r: Vec<Self>)
        ensures
            contexts_views(r@) == context_apply_token(self.views(), *token, g.0),
    {
        let unary_symbols = g.apply_unary(token);
        let binary_symbols = g.apply_binary(&unary_symbols);
        let mut symbols: Vec<Symbol<String>> = Vec::new();
        let nu = unary_symbols.len();
        let mut i: usize = 0;
        while i < nu
            invariant
                nu == unary_symbols@.len(),
                i <= nu,
                symbols@.map_values(|s: Symbol<String>| s@) == label_views(
                    unary_symbols@.take(i as int),
                ).map_values(|l: Seq<char>| SymbolView::Complete(l)),
            decreases nu - i,
        {
            let ghost old_symbols = symbols@;
            symbols.push(Symbol::Complete(unary_symbols[i].clone()));
            proof {
                assert(symbols@.map_values(|s: Symbol<String>| s@) =~= old_symbols.map_values(
                    |s: Symbol<String>| s@,
                ).push(SymbolView::Complete(unary_symbols@[i as int]@)));
                assert(label_views(unary_symbols@.take(i + 1)) =~= label_views(
                    unary_symbols@.take(i as int),
                ).push(unary_symbols@[i as int]@));
                assert(unary_symbols@.take(i + 1) =~= unary_symbols@.take(i as int).push(
                    unary_symbols@[i as int],
                ));
                assert(symbols@.map_values(|s: Symbol<String>| s@) =~= label_views(
                    unary_symbols@.take(i + 1),
                ).map_values(|l: Seq<char>| SymbolView::Complete(l)));
            }
            i = i + 1;
        }
        let ghost unary_part = symbols@.map_values(|s: Symbol<String>| s@);
        proof {
            assert(unary_symbols@.take(nu as int) =~= unary_symbols@);
        }
        let nb = binary_symbols.len();
        let mut j: usize = 0;
        while j < nb
            invariant
                nb == binary_symbols@.len(),
                j <= nb,
                symbols@.map_values(|s: Symbol<String>| s@) == unary_part + binary_symbols@.take(
                    j as int,
                ).map_values(|p: Rc<Partial<String>>| SymbolView::Incomplete(p.left@)),
            decreases nb - j,
        {
            let ghost old_symbols = symbols@;
            symbols.push(Symbol::Incomplete(rc_clone(&binary_symbols[j])));
            proof {
                assert(symbols@.map_values(|s: Symbol<String>| s@) =~= old_symbols.map_values(
                    |s: Symbol<String>| s@,
                ).push(SymbolView::Incomplete(binary_symbols@[j as int].left@)));
                assert(binary_symbols@.take(j + 1) =~= binary_symbols@.take(j as int).push(
                    binary_symbols@[j as int],
                ));
                assert(symbols@.map_values(|s: Symbol<String>| s@) =~= unary_part
                    + binary_symbols@.take(j + 1).map_values(
                    |p: Rc<Partial<String>>| SymbolView::Incomplete(p.left@),
                ));
            }
            j = j + 1;
        }
        proof {
            assert(binary_symbols@.take(nb as int) =~= binary_symbols@);
            let lefts = binary_symbols@.map_values(|p: Rc<Partial<String>>| p.left@);
            assert(binary_symbols@.map_values(
                |p: Rc<Partial<String>>| SymbolView::Incomplete(p.left@),
            ) =~= lefts.map_values(|l: Seq<char>| SymbolView::Incomplete(l)));
            assert(symbols@.map_values(|s: Symbol<String>| s@) =~= token_symbols(g.0, *token));
        }
        let ghost sv = symbols@.map_values(|s: Symbol<String>| s@);
        let ghost f = |s: SymbolView<Seq<char>>| context_apply(self.views(), s, g.0);
        let mut out: Vec<Self> = Vec::new();
        let n = symbols.len();
        let mut k: usize = 0;
        while k < n
            invariant
                n == symbols@.len(),
                k <= n,
                sv == symbols@.map_values(|s: Symbol<String>| s@),
                f == (|s: SymbolView<Seq<char>>| context_apply(self.views(), s, g.0)),
                contexts_views(out@) == sv.take(k as int).map_values(f).flatten(),
            decreases n - k,
        {
            let mut more = self.apply(Symbol::clone_symbol(&symbols[k]), g);
            let ghost before = contexts_views(out@);
            let ghost mv = contexts_views(more@);
            out.append(&mut more);
            proof {
                assert(contexts_views(out@) =~= before + mv);
                assert(sv.take(k + 1) =~= sv.take(k as int).push(sv[k as int]));
                assert(sv.take(k + 1).map_values(f) =~= sv.take(k as int).map_values(f).push(
                    f(sv[k as int]),
                ));
                sv.take(k as int).map_values(f).lemma_flatten_push(f(sv[k as int]));
            }
            k = k + 1;
        }
        proof {
            assert(sv.take(n as int) =~= sv);
        }
        out
    }
}

impl Symbol<String> {
    /// A copy of the symbol; an incomplete one shares its partial.
    pub fn clone_symbol(s: &Symbol<String>) -> (r: Symbol<String>)
        ensures
            r == *s,
    {
        match s {
            Symbol::Complete(n) => Symbol::Complete(n.clone()),
            Symbol::Incomplete(p) => Symbol::Incomplete(rc_clone(p)),
        }
    }
}

/// Trees that show a context explains the input `w`: one derived tree per
/// symbol, with the symbol's label at its root, spelling `w` from the bottom up.
pub open spec fn witnesses<T: Token>(
    g: BinaryGrammar<T>,
    ctx: Seq<SymbolView<Seq<char>>>,
    trees: Seq<BinaryTree<T>>,
    w: Seq<T>,
) -> bool {
    &&& trees.len() == ctx.len()
    &&& forall|i: int|
        0 <= i < ctx.len() ==> g.derives(#[trigger] trees[i]) && trees[i].root_label()
            == ctx[i].label()
    &&& stack_tokens(trees) == w
}

/// A context explains `w` when some trees witness it.
pub open spec fn context_explains<T: Token>(
    g: BinaryGrammar<T>,
    ctx: Seq<SymbolView<Seq<char>>>,
    w: Seq<T>,
) -> bool {
    exists|trees: Seq<BinaryTree<T>>| #[trigger] witnesses(g, ctx, trees, w)
}

/// Offering a symbol that a derived tree spelling `v` stands for, to a
/// context that explains `w`, gives contexts that explain `w` followed by `v`.
pub proof fn lemma_context_apply_sound<T: Token>(
    g: BinaryGrammar<T>,
    ctx: Seq<SymbolView<Seq<char>>>,
    trees: Seq<BinaryTree<T>>,
    w: Seq<T>,
    symbol: SymbolView<Seq<char>>,
    tree: BinaryTree<T>,
)
    requires
        witnesses(g, ctx, trees, w),
        g.derives(tree),
        tree.root_label() == symbol.label(),
    ensures
        forall|k: int|
            0 <= k < context_apply(ctx, symbol, g).len() ==> context_explains(
                g,
                #[trigger] context_apply(ctx, symbol, g)[k],
                w + tree.tokens(),
            ),
    decreases ctx.len(),
{
    let r = context_apply(ctx, symbol, g);
    let pushed = seq![tree] + trees;
    assert(pushed.drop_first() =~= trees);
    assert(stack_tokens(pushed) == w + tree.tokens());
    assert forall|i: int| 0 <= i < pushed.len() implies g.derives(#[trigger] pushed[i])
        && pushed[i].root_label() == (seq![symbol] + ctx)[i].label() by {
        if i > 0 {
            assert(pushed[i] == trees[i - 1]);
            assert((seq![symbol] + ctx)[i] == ctx[i - 1]);
        }
    }
    assert(witnesses(g, seq![symbol] + ctx, pushed, w + tree.tokens()));
    if ctx.len() == 0 {
        assert(seq![symbol] + ctx =~= seq![symbol]);
    } else {
        let rest = ctx.drop_first();
        let rest_trees = trees.drop_first();
        match ctx[0] {
            SymbolView::Complete(_) => {},
            SymbolView::Incomplete(left) => match symbol {
                SymbolView::Incomplete(_) => {},
                SymbolView::Complete(right) => match g.parent(left, right) {
                    None => {},
                    Some(p) => {
                        let node = BinaryTree::Nonterminal {
                            label: p,
                            left: Box::new(trees[0]),
                            right: Box::new(tree),
                        };
                        assert(g.derives(trees[0]));
                        assert(g.derives(node));
                        assert(trees == seq![trees[0]] + rest_trees);
                        assert(trees.drop_first() == rest_trees);
                        let w0 = stack_tokens(rest_trees);
                        assert(w == w0 + trees[0].tokens());
                        assert(w + tree.tokens() =~= w0 + node.tokens());
                        assert forall|i: int| 0 <= i < rest.len() implies g.derives(
                            #[trigger] rest_trees[i],
                        ) && rest_trees[i].root_label() == rest[i].label() by {
                            assert(rest_trees[i] == trees[i + 1]);
                            assert(rest[i] == ctx[i + 1]);
                        }
                        assert(witnesses(g, rest, rest_trees, w0));
                        lemma_context_apply_sound(g, rest, rest_trees, w0, SymbolView::Complete(p@), node);
                        let a = context_apply(rest, SymbolView::Complete(p@), g);
                        if g.is_left_corner(p@) {
                            lemma_context_apply_sound(
                                g,
                                rest,
                                rest_trees,
                                w0,
                                SymbolView::Incomplete(p@),
                                node,
                            );
                            let b = context_apply(rest, SymbolView::Incomplete(p@), g);
                            assert(r == a + b);
                            assert forall|k: int| 0 <= k < r.len() implies context_explains(
                                g,
                                #[trigger] r[k],
                                w + tree.tokens(),
                            ) by {
                                if k < a.len() {
                                    assert(r[k] == a[k]);
                                } else {
                                    assert(r[k] == b[k - a.len()]);
                                }
                            }
                        } else {
                            assert(r =~= a);
                        }
                    },
                },
            },
        }
    }
}

/// Reading a token keeps a context explaining the input: each context that
/// `apply_token` gives from a context explaining `w` explains `w` followed by the token.
pub proof fn lemma_context_apply_token_sound<T: Token>(
    g: BinaryGrammar<T>,
    ctx: Seq<SymbolView<Seq<char>>>,
    token: T,
    w: Seq<T>,
)
    requires
        context_explains(g, ctx, w),
    ensures
        forall|k: int|
            0 <= k < context_apply_token(ctx, token, g).len() ==> context_explains(
                g,
                #[trigger] context_apply_token(ctx, token, g)[k],
                w.push(token),
            ),
{
    let trees = choose|trees: Seq<BinaryTree<T>>| witnesses(g, ctx, trees, w);
    let syms = token_symbols(g, token);
    let ss = syms.map_values(|s: SymbolView<Seq<char>>| context_apply(ctx, s, g));
    let p = |c: Seq<SymbolView<Seq<char>>>| context_explains(g, c, w.push(token));
    assert forall|i: int, j: int| 0 <= i < ss.len() && 0 <= j < ss[i].len() implies p(
        #[trigger] ss[i][j],
    ) by {
        let ls = g.terminal_labels(token).unwrap();
        let units = unary_labels(g, token).map_values(|l: Seq<char>| SymbolView::Complete(l));
        let f = |l: Seq<char>| if g.is_left_corner(l) { Some(l) } else { None };
        let lv = label_views(ls);
        let m: int = if i < units.len() {
            i
        } else {
            lemma_filter_map_source(lv, f, i - units.len());
            choose|m: int| 0 <= m < lv.len() && f(lv[m]) == Some(lv.filter_map(f)[i - units.len()])
        };
        let leaf = BinaryTree::Terminal { label: ls[m], token };
        assert(ls.contains(ls[m]));
        assert(g.derives(leaf));
        assert(leaf.root_label() == syms[i].label());
        lemma_context_apply_sound(g, ctx, trees, w, syms[i], leaf);
        assert(w + leaf.tokens() =~= w.push(token));
    }
    lemma_flatten_all(ss, p);
}

/// Only the top symbol of the context may be complete.
pub open spec fn only_top_complete(ctx: Seq<SymbolView<Seq<char>>>) -> bool {
    forall|i: int| 1 <= i < ctx.len() ==> #[trigger] ctx[i] is Incomplete
}

/// Offering a symbol to a context whose symbols below the top are incomplete
/// gives contexts whose symbols below the top are incomplete.
pub proof fn lemma_context_apply_shape<T: Token>(
    ctx: Seq<SymbolView<Seq<char>>>,
    symbol: SymbolView<Seq<char>>,
    g: BinaryGrammar<T>,
)
    requires
        only_top_complete(ctx),
    ensures
        forall|k: int|
            0 <= k < context_apply(ctx, symbol, g).len() ==> only_top_complete(
                #[trigger] context_apply(ctx, symbol, g)[k],
            ),
    decreases ctx.len(),
{
    let r = context_apply(ctx, symbol, g);
    if ctx.len() > 0 {
        let rest = ctx.drop_first();
        assert forall|i: int| 1 <= i < rest.len() implies #[trigger] rest[i] is Incomplete by {
            assert(rest[i] == ctx[i + 1]);
        }
        match ctx[0] {
            SymbolView::Complete(_) => {},
            SymbolView::Incomplete(left) => match symbol {
                SymbolView::Incomplete(_) => {
                    let c = seq![symbol] + ctx;
                    assert forall|i: int| 1 <= i < c.len() implies #[trigger] c[i] is Incomplete by {
                        assert(c[i] == ctx[i - 1]);
                    }
                },
                SymbolView::Complete(right) => match g.parent(left, right) {
                    None => {},
                    Some(p) => {
                        lemma_context_apply_shape(rest, SymbolView::Complete(p@), g);
                        lemma_context_apply_shape(rest, SymbolView::Incomplete(p@), g);
                        let a = context_apply(rest, SymbolView::Complete(p@), g);
                        let b = if g.is_left_corner(p@) {
                            context_apply(rest, SymbolView::Incomplete(p@), g)
                        } else {
                            Seq::empty()
                        };
                        assert(r == a + b);
                        assert forall|k: int| 0 <= k < r.len() implies only_top_complete(
                            #[trigger] r[k],
                        ) by {
                            if k < a.len() {
                                assert(r[k] == a[k]);
                            } else {
                                assert(r[k] == b[k - a.len()]);
                            }
                        }
                    },
                },
            },
        }
    }
}

/// Reading a token keeps every symbol below the top of a context incomplete.
pub proof fn lemma_context_apply_token_shape<T: Token>(
    ctx: Seq<SymbolView<Seq<char>>>,
    token: T,
    g: BinaryGrammar<T>,
)
    requires
        only_top_complete(ctx),
    ensures
        forall|k: int|
            0 <= k < context_apply_token(ctx, token, g).len() ==> only_top_complete(
                #[trigger] context_apply_token(ctx, token, g)[k],
            ),
{
    let syms = token_symbols(g, token);
    let ss = syms.map_values(|s: SymbolView<Seq<char>>| context_apply(ctx, s, g));
    assert forall|i: int, j: int| 0 <= i < ss.len() && 0 <= j < ss[i].len() implies (|c: Seq<
        SymbolView<Seq<char>>,
    >| only_top_complete(c))(#[trigger] ss[i][j]) by {
        lemma_context_apply_shape(ctx, syms[i], g);
    }
    lemma_flatten_all(ss, |c: Seq<SymbolView<Seq<char>>>| only_top_complete(c));
}

/// Every incomplete symbol of the context waits as the left child of some
/// binary rule.
pub open spec fn incompletes_start_rules<T: Token>(
    g: BinaryGrammar<T>,
    ctx: Seq<SymbolView<Seq<char>>>,
) -> bool {
    forall|i: int|
        0 <= i < ctx.len() ==> (#[trigger] ctx[i] matches SymbolView::Incomplete(l)
            ==> g.is_left_corner(l))
}

/// Offering a symbol keeps every incomplete symbol of the contexts a left
/// child of some binary rule, when the context and the symbol are so.
pub proof fn lemma_context_apply_left_corners<T: Token>(
    ctx: Seq<SymbolView<Seq<char>>>,
    symbol: SymbolView<Seq<char>>,
    g: BinaryGrammar<T>,
)
    requires
        incompletes_start_rules(g, ctx),
        symbol matches SymbolView::Incomplete(l) ==> g.is_left_corner(l),
    ensures
        forall|k: int|
            0 <= k < context_apply(ctx, symbol, g).len() ==> incompletes_start_rules(
                g,
                #[trigger] context_apply(ctx, symbol, g)[k],
            ),
    decreases ctx.len(),
{
    let r = context_apply(ctx, symbol, g);
    if ctx.len() == 0 {
        assert(r[0] =~= seq![symbol]);
        assert forall|i: int| 0 <= i < r[0].len() implies (#[trigger] r[0][i] matches SymbolView::Incomplete(l)
            ==> g.is_left_corner(l)) by {
            assert(r[0][i] == symbol);
        }
    } else {
        let rest = ctx.drop_first();
        assert forall|i: int| 0 <= i < rest.len() implies (#[trigger] rest[i] matches SymbolView::Incomplete(l)
            ==> g.is_left_corner(l)) by {
            assert(rest[i] == ctx[i + 1]);
        }
        match ctx[0] {
            SymbolView::Complete(_) => {},
            SymbolView::Incomplete(left) => match symbol {
                SymbolView::Incomplete(_) => {
                    let c = seq![symbol] + ctx;
                    assert(r[0] == c);
                    assert forall|i: int| 0 <= i < c.len() implies (#[trigger] c[i] matches SymbolView::Incomplete(l)
                        ==> g.is_left_corner(l)) by {
                        if i > 0 {
                            assert(c[i] == ctx[i - 1]);
                        }
                    }
                },
                SymbolView::Complete(right) => match g.parent(left, right) {
                    None => {},
                    Some(p) => {
                        lemma_context_apply_left_corners(rest, SymbolView::Complete(p@), g);
                        let a = context_apply(rest, SymbolView::Complete(p@), g);
                        if g.is_left_corner(p@) {
                            lemma_context_apply_left_corners(rest, SymbolView::Incomplete(p@), g);
                            let b = context_apply(rest, SymbolView::Incomplete(p@), g);
                            assert(r == a + b);
                            assert forall|k: int| 0 <= k < r.len() implies incompletes_start_rules(
                                g,
                                #[trigger] r[k],
                            ) by {
                                if k < a.len() {
                                    assert(r[k] == a[k]);
                                } else {
                                    assert(r[k] == b[k - a.len()]);
                                }
                            }
                        } else {
                            assert(r =~= a);
                        }
                    },
                },
            },
        }
    }
}

/// Reading a token keeps every incomplete symbol of the contexts a left
/// child of some binary rule.
pub proof fn lemma_context_apply_token_left_corners<T: Token>(
    ctx: Seq<SymbolView<Seq<char>>>,
    token: T,
    g: BinaryGrammar<T>,
)
    requires
        incompletes_start_rules(g, ctx),
    ensures
        forall|k: int|
            0 <= k < context_apply_token(ctx, token, g).len() ==> incompletes_start_rules(
                g,
                #[trigger] context_apply_token(ctx, token, g)[k],
            ),
{
    let syms = token_symbols(g, token);
    let labels = unary_labels(g, token);
    let completes = labels.map_values(|l: Seq<char>| SymbolView::Complete(l));
    let corners = left_corners(g, labels);
    let f_corner = |l: Seq<char>| if g.is_left_corner(l) { Some(l) } else { None };
    assert forall|i: int| 0 <= i < syms.len() implies (#[trigger] syms[i] matches SymbolView::Incomplete(l)
        ==> g.is_left_corner(l)) by {
        if i >= completes.len() {
            let j = i - completes.len();
            assert(syms[i] == SymbolView::<Seq<char>>::Incomplete(corners[j]));
            lemma_filter_map_source(labels, f_corner, j);
        }
    }
    let ss = syms.map_values(|s: SymbolView<Seq<char>>| context_apply(ctx, s, g));
    assert forall|i: int, j: int| 0 <= i < ss.len() && 0 <= j < ss[i].len() implies (|c: Seq<
        SymbolView<Seq<char>>,
    >| incompletes_start_rules(g, c))(#[trigger] ss[i][j]) by {
        lemma_context_apply_left_corners(ctx, syms[i], g);
    }
    lemma_flatten_all(ss, |c: Seq<SymbolView<Seq<char>>>| incompletes_start_rules(g, c));
}

/// The symbol a subtree is offered as once complete: complete when it is the
/// root or a right child, incomplete when it is a left child.
pub open spec fn offered(complete: bool, label: Seq<char>) -> SymbolView<Seq<char>> {
    if complete {
        SymbolView::Complete(label)
    } else {
        SymbolView::Incomplete(label)
    }
}

/// The context that building `t` bottom-up leaves before its leaf `k`: the
/// labels of the complete left children on the path to that leaf, whose
/// right siblings are still to come, lowest first.
pub open spec fn waiting_lefts<T>(t: BinaryTree<T>, k: int) -> Seq<SymbolView<Seq<char>>>
    decreases t,
{
    match t {
        BinaryTree::Terminal { .. } => Seq::empty(),
        BinaryTree::Nonterminal { left, right, .. } => if k < left.tokens().len() {
            waiting_lefts(*left, k)
        } else {
            waiting_lefts(*right, k - left.tokens().len()) + seq![
                SymbolView::Incomplete(left.root_label()),
            ]
        },
    }
}

/// No left child waits before the first leaf.
pub proof fn lemma_waiting_lefts_first<T>(t: BinaryTree<T>)
    ensures
        waiting_lefts(t, 0) == Seq::<SymbolView<Seq<char>>>::empty(),
    decreases t,
{
    match t {
        BinaryTree::Terminal { .. } => {},
        BinaryTree::Nonterminal { left, .. } => {
            lemma_tokens_nonempty(*left);
            lemma_waiting_lefts_first(*left);
        },
    }
}

/// Each context that offering one of a token's symbols gives is among the
/// contexts that reading the token gives.
proof fn lemma_token_symbol_contexts<T: Token>(
    g: BinaryGrammar<T>,
    ctx: Seq<SymbolView<Seq<char>>>,
    token: T,
    i: int,
    c: Seq<SymbolView<Seq<char>>>,
)
    requires
        0 <= i < token_symbols(g, token).len(),
        context_apply(ctx, token_symbols(g, token)[i], g).contains(c),
    ensures
        context_apply_token(ctx, token, g).contains(c),
{
    let syms = token_symbols(g, token);
    let ss = syms.map_values(|s: SymbolView<Seq<char>>| context_apply(ctx, s, g));
    let j = choose|j: int| 0 <= j < ss[i].len() && ss[i][j] == c;
    lemma_flatten_member(ss, i, j);
}

/// A leaf's own label is among the symbols its token offers: complete, and
/// incomplete when it starts a binary rule.
proof fn lemma_leaf_symbol<T: Token>(g: BinaryGrammar<T>, leaf: BinaryTree<T>, complete: bool)
    requires
        leaf is Terminal,
        g.derives(leaf),
        !complete ==> g.is_left_corner(leaf.root_label()),
    ensures
        token_symbols(g, leaf->Terminal_token).contains(offered(complete, leaf.root_label())),
{
    let token = leaf->Terminal_token;
    let label = leaf->Terminal_label;
    let ls = g.terminal_labels(token).unwrap();
    let m = choose|m: int| 0 <= m < ls.len() && ls[m] == label;
    let units = unary_labels(g, token);
    assert(units[m] == label@);
    let syms = token_symbols(g, token);
    let complete_part = units.map_values(|l: Seq<char>| SymbolView::Complete(l));
    if complete {
        assert(syms[m] == SymbolView::<Seq<char>>::Complete(label@));
    } else {
        let f = |l: Seq<char>| if g.is_left_corner(l) { Some(l) } else { None };
        lemma_filter_map_member(units, f, m);
        let lc = left_corners(g, units);
        let q = choose|q: int| 0 <= q < lc.len() && lc[q] == label@;
        assert(syms[complete_part.len() + q] == SymbolView::<Seq<char>>::Incomplete(label@));
    }
}

/// Reading the leaf `k` of a derived tree `t`, on a context that holds the
/// left children waiting before it above `below`, gives the context of the
/// next leaf; after the last leaf, the contexts of offering `t` itself to `below`.
pub proof fn lemma_read_leaf<T: Token>(
    g: BinaryGrammar<T>,
    t: BinaryTree<T>,
    k: int,
    below: Seq<SymbolView<Seq<char>>>,
    complete: bool,
)
    requires
        g.derives(t),
        0 <= k < t.tokens().len(),
        below.len() == 0 || below[0] is Incomplete,
        !complete ==> g.is_left_corner(t.root_label()),
    ensures
        k + 1 < t.tokens().len() ==> context_apply_token(
            waiting_lefts(t, k) + below,
            t.tokens()[k],
            g,
        ).contains(waiting_lefts(t, k + 1) + below),
        k + 1 == t.tokens().len() ==> forall|c: Seq<SymbolView<Seq<char>>>|
            #[trigger] context_apply(below, offered(complete, t.root_label()), g).contains(c)
                ==> context_apply_token(waiting_lefts(t, k) + below, t.tokens()[k], g).contains(c),
    decreases t,
{
    match t {
        BinaryTree::Terminal { token, .. } => {
            assert(t.tokens().len() == 1);
            assert(!(k + 1 < t.tokens().len()));
            assert(waiting_lefts(t, k) + below =~= below);
            lemma_leaf_symbol(g, t, complete);
            let syms = token_symbols(g, token);
            let i = choose|i: int| 0 <= i < syms.len() && syms[i] == offered(complete, t.root_label());
            assert forall|c: Seq<SymbolView<Seq<char>>>|
                #[trigger] context_apply(below, offered(complete, t.root_label()), g).contains(c)
                    implies context_apply_token(waiting_lefts(t, k) + below, t.tokens()[k], g).contains(c) by {
                lemma_token_symbol_contexts(g, below, token, i, c);
            }
        },
        BinaryTree::Nonterminal { label, left, right } => {
            let nl = left.tokens().len() as int;
            lemma_tokens_nonempty(*right);
            g.lemma_left_corner(left.root_label(), right.root_label());
            if k < nl {
                assert(t.tokens()[k] == left.tokens()[k]);
                lemma_read_leaf(g, *left, k, below, false);
                if k + 1 < nl {
                    assert(waiting_lefts(t, k) == waiting_lefts(*left, k));
                    assert(waiting_lefts(t, k + 1) == waiting_lefts(*left, k + 1));
                }
                if k + 1 == nl {
                    lemma_waiting_lefts_first(*right);
                    let pushed = seq![SymbolView::Incomplete(left.root_label())] + below;
                    assert(waiting_lefts(t, k + 1) + below =~= pushed);
                    assert(context_apply(below, offered(false, left.root_label()), g)[0] == pushed);
                    assert(context_apply(below, offered(false, left.root_label()), g).contains(pushed));
                    assert(waiting_lefts(t, k) == waiting_lefts(*left, k));
                }
            } else {
                let kr = k - nl;
                let below2 = seq![SymbolView::Incomplete(left.root_label())] + below;
                assert(t.tokens()[k] == right.tokens()[kr]);
                assert(waiting_lefts(t, k) + below =~= waiting_lefts(*right, kr) + below2);
                lemma_read_leaf(g, *right, kr, below2, true);
                if k + 1 < t.tokens().len() {
                    assert(waiting_lefts(t, k + 1) + below =~= waiting_lefts(*right, kr + 1) + below2);
                } else {
                    let p = g.parent(left.root_label(), right.root_label()).unwrap();
                    assert(p == label);
                    assert(below2.drop_first() =~= below);
                    let a = context_apply(below, SymbolView::Complete(p@), g);
                    let b = if g.is_left_corner(p@) {
                        context_apply(below, SymbolView::Incomplete(p@), g)
                    } else {
                        Seq::empty()
                    };
                    let joined = context_apply(below2, SymbolView::Complete(right.root_label()), g);
                    assert(joined == a + b);
                    assert forall|c: Seq<SymbolView<Seq<char>>>|
                        #[trigger] context_apply(below, offered(complete, t.root_label()), g).contains(c)
                            implies context_apply_token(waiting_lefts(t, k) + below, t.tokens()[k], g).contains(c) by {
                        if complete {
                            let q = choose|q: int| 0 <= q < a.len() && a[q] == c;
                            assert(joined[q] == c);
                        } else {
                            let q = choose|q: int| 0 <= q < b.len() && b[q] == c;
                            assert(joined[a.len() + q] == c);
                        }
                        assert(context_apply(below2, offered(true, right.root_label()), g).contains(c));
                    }
                }
            }
        },
    }
}

/// A context with a complete symbol on top accepts nothing: offering it any
/// symbol gives no context.
pub proof fn lemma_complete_top_accepts_nothing<T: Token>(
    ctx: Seq<SymbolView<Seq<char>>>,
    symbol: SymbolView<Seq<char>>,
    g: BinaryGrammar<T>,
)
    requires
        ctx.len() > 0,
        ctx[0] is Complete,
    ensures
        context_apply(ctx, symbol, g).len() == 0,
{
}

} // verus!
