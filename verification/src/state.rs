use vstd::prelude::*;

use crate::binary_grammar::{label_views, BinaryGrammar};
use crate::binary_tree::{lemma_tokens_nonempty, BinaryTree};
use crate::context::{
    context_apply, context_apply_token, context_explains, contexts_views,
    incompletes_start_rules, lemma_context_apply_token_left_corners, lemma_context_apply_token_shape, lemma_context_apply_token_sound, lemma_read_leaf,
    lemma_waiting_lefts_first, offered, only_top_complete, waiting_lefts, witnesses, Context,
    PartialGrammar, Symbol, SymbolView,
};
use crate::generator_state::{lemma_parses_exact, parses};
use crate::seq_facts::{
    lemma_filter_map_member, lemma_filter_map_source, lemma_flatten_all, lemma_flatten_member,
};
use crate::stack::stack_tokens;
use crate::token::Token;

verus! {

/// A left-corner parse in progress: all the contexts that the tokens read so
/// far admit, with the grammar that reads the next token.
#[derive(Debug)]
pub struct State<T, N> {
    context: Vec<Context<N>>,
    grammar: PartialGrammar<T>,
}

/// The contexts that reading `token` gives from each context, in order.
pub open spec fn state_apply<T: Token>(
    contexts: Seq<Seq<SymbolView<Seq<char>>>>,
    token: T,
    g: BinaryGrammar<T>,
) -> Seq<Seq<SymbolView<Seq<char>>>> {
    contexts.map_values(|c: Seq<SymbolView<Seq<char>>>| context_apply_token(c, token, g)).flatten()
}

/// The labels of the complete start symbols on top of the contexts, in order.
pub open spec fn context_tops(contexts: Seq<Seq<SymbolView<Seq<char>>>>, start: Seq<char>) -> Seq<
    Seq<char>,
> {
    contexts.filter_map(
        |c: Seq<SymbolView<Seq<char>>>|
            if c.len() > 0 && c[0] == SymbolView::Complete(start) {
                Some(start)
            } else {
                None
            },
    )
}

/// The contexts that hold exactly one symbol, in order.
pub open spec fn single_symbol_contexts(contexts: Seq<Seq<SymbolView<Seq<char>>>>) -> Seq<
    Seq<SymbolView<Seq<char>>>,
> {
    contexts.filter_map(
        |c: Seq<SymbolView<Seq<char>>>|
            if c.len() == 1 {
                Some(c)
            } else {
                None
            },
    )
}

impl<T: Token> State<T, String> {
    /// The contexts, each as labels, top first.
    pub closed spec fn contexts(self) -> Seq<Seq<SymbolView<Seq<char>>>> {
        contexts_views(self.context@)
    }

    /// The grammar that reads the tokens.
    pub closed spec fn rules(self) -> BinaryGrammar<T> {
        self.grammar.0
    }

    /// The state before any token: one empty context.
    pub fn new(grammar: PartialGrammar<T>) -> (r: Self)
        ensures
            r.contexts() == seq![Seq::<SymbolView<Seq<char>>>::empty()],
            r.rules() == grammar.0,
    {
        let r = State { context: vec![Context::default()], grammar };
        proof {
            assert(r.context@[0].views() =~= Seq::<SymbolView<Seq<char>>>::empty());
            assert(r.contexts() =~= seq![Seq::<SymbolView<Seq<char>>>::empty()]);
        }
        r
    }

    /// The number of contexts.
    pub fn len(&self) -> (r: usize)
        ensures
            r == self.contexts().len(),
    {
        self.context.len()
    }

    /// Reads one token: every context is replaced by the contexts that the
    /// token gives from it.
    pub fn apply(self, token: &T) -> (r: Self)
        ensures
            r.contexts() == state_apply(self.contexts(), *token, self.rules()),
            r.rules() == self.rules(),
    {
        let ghost cs = self.contexts();
        let ghost f = |c: Seq<SymbolView<Seq<char>>>| context_apply_token(c, *token, self.grammar.0);
        let mut out: Vec<Context<String>> = Vec::new();
        let n = self.context.len();
        let mut i: usize = 0;
        while i < n
            invariant
                n == self.context@.len(),
                i <= n,
                cs == contexts_views(self.context@),
                f == (|c: Seq<SymbolView<Seq<char>>>| context_apply_token(c, *token, self.grammar.0)),
                contexts_views(out@) == cs.take(i as int).map_values(f).flatten(),
            decreases n - i,
        {
            let current_context = self.context[i].clone();
            let mut more = current_context.apply_token(token, &self.grammar);
            let ghost before = contexts_views(out@);
            let ghost mv = contexts_views(more@);
            out.append(&mut more);
            proof {
                assert(contexts_views(out@) =~= before + mv);
                assert(cs.take(i + 1) =~= cs.take(i as int).push(cs[i as int]));
                assert(cs.take(i + 1).map_values(f) =~= cs.take(i as int).map_values(f).push(
                    f(cs[i as int]),
                ));
                cs.take(i as int).map_values(f).lemma_flatten_push(f(cs[i as int]));
            }
            i = i + 1;
        }
        proof {
            assert(cs.take(n as int) =~= cs);
        }
        State { context: out, grammar: self.grammar }
    }

    /// The complete start symbols on top of the contexts.
    pub fn tops(self) -> (r: Vec<String>)
        ensures
            label_views(r@) == context_tops(self.contexts(), self.rules().start_label()),
    {
        let ghost cs = self.contexts();
        let start = self.grammar.0.start();
        let mut out: Vec<String> = Vec::new();
        let n = self.context.len();
        let mut i: usize = 0;
        while i < n
            invariant
                n == self.context@.len(),
                i <= n,
                cs == contexts_views(self.context@),
                start@ == self.grammar.0.start_label(),
                label_views(out@) == context_tops(cs.take(i as int), start@),
            decreases n - i,
        {
            let context = &self.context[i];
            proof {
                assert(cs.take(i + 1).drop_last() =~= cs.take(i as int));
                assert(cs.take(i + 1).last() == context.views());
            }
            match &context.0 {
                None => {},
                Some(rc) => {
                    let (top, _rest) = &**rc;
                    proof {
                        assert(context.symbols() == seq![*top] + _rest.symbols());
                        assert(context.views()[0] == top@);
                    }
                    match top {
                        Symbol::Complete(s) => {
                            if *s == *start {
                                let ghost before = out@;
                                out.push(s.clone());
                                proof {
                                    assert(label_views(out@) =~= label_views(before).push(s@));
                                }
                            }
                        },
                        Symbol::Incomplete(_) => {},
                    }
                },
            }
            i = i + 1;
        }
        proof {
            assert(cs.take(n as int) =~= cs);
        }
        out
    }

    /// Keeps the contexts that hold exactly one symbol.
    pub fn single_contexts(self) -> (r: Self)
        ensures
            r.contexts() == single_symbol_contexts(self.contexts()),
            r.rules() == self.rules(),
    {
        let ghost cs = self.contexts();
        let mut out: Vec<Context<String>> = Vec::new();
        let n = self.context.len();
        let mut i: usize = 0;
        while i < n
            invariant
                n == self.context@.len(),
                i <= n,
                cs == contexts_views(self.context@),
                contexts_views(out@) == single_symbol_contexts(cs.take(i as int)),
            decreases n - i,
        {
            let context = &self.context[i];
            proof {
                assert(cs.take(i + 1).drop_last() =~= cs.take(i as int));
                assert(cs.take(i + 1).last() == context.views());
            }
            let single = match &context.0 {
                None => false,
                Some(rc) => {
                    proof {
                        assert(context.symbols() == seq![rc.0] + rc.1.symbols());
                        if rc.1.0.is_some() {
                            assert(rc.1.symbols().len() > 0);
                        }
                    }
                    rc.1.0.is_none()
                },
            };
            if single {
                let ghost before = contexts_views(out@);
                out.push(context.clone());
                proof {
                    assert(contexts_views(out@) =~= before.push(context.views()));
                }
            }
            i = i + 1;
        }
        proof {
            assert(cs.take(n as int) =~= cs);
        }
        State { context: out, grammar: self.grammar }
    }
}

/// The contexts after reading `w` from the start state, one token at a time.
pub open spec fn run_contexts<T: Token>(g: BinaryGrammar<T>, w: Seq<T>) -> Seq<
    Seq<SymbolView<Seq<char>>>,
>
    decreases w.len(),
{
    if w.len() == 0 {
        seq![Seq::empty()]
    } else {
        state_apply(run_contexts(g, w.drop_last()), w.last(), g)
    }
}

/// Reading a token keeps every context explaining the input.
pub proof fn lemma_state_apply_sound<T: Token>(
    g: BinaryGrammar<T>,
    contexts: Seq<Seq<SymbolView<Seq<char>>>>,
    token: T,
    w: Seq<T>,
)
    requires
        forall|i: int| 0 <= i < contexts.len() ==> context_explains(g, #[trigger] contexts[i], w),
    ensures
        forall|k: int|
            0 <= k < state_apply(contexts, token, g).len() ==> context_explains(
                g,
                #[trigger] state_apply(contexts, token, g)[k],
                w.push(token),
            ),
{
    let ss = contexts.map_values(
        |c: Seq<SymbolView<Seq<char>>>| context_apply_token(c, token, g),
    );
    let p = |c: Seq<SymbolView<Seq<char>>>| context_explains(g, c, w.push(token));
    assert forall|i: int, j: int| 0 <= i < ss.len() && 0 <= j < ss[i].len() implies p(
        #[trigger] ss[i][j],
    ) by {
        lemma_context_apply_token_sound(g, contexts[i], token, w);
    }
    lemma_flatten_all(ss, p);
}

/// Every context after reading `w` explains `w`.
pub proof fn lemma_run_contexts_sound<T: Token>(g: BinaryGrammar<T>, w: Seq<T>)
    ensures
        forall|k: int|
            0 <= k < run_contexts(g, w).len() ==> context_explains(
                g,
                #[trigger] run_contexts(g, w)[k],
                w,
            ),
    decreases w.len(),
{
    if w.len() == 0 {
        let none = Seq::<BinaryTree<T>>::empty();
        assert(stack_tokens(none) =~= w);
        assert(witnesses(g, run_contexts(g, w)[0], none, w));
    } else {
        lemma_run_contexts_sound(g, w.drop_last());
        lemma_state_apply_sound(g, run_contexts(g, w.drop_last()), w.last(), w.drop_last());
        assert(w.drop_last().push(w.last()) =~= w);
    }
}

/// What the left-corner parse reports after reading `w` is sound: every label
/// in the tops of the single-symbol contexts is the start label, and the
/// grammar derives a tree with that label at its root whose tokens are `w`.
pub proof fn lemma_tops_sound<T: Token>(g: BinaryGrammar<T>, w: Seq<T>)
    ensures
        forall|k: int|
            #![trigger context_tops(single_symbol_contexts(run_contexts(g, w)), g.start_label())[k]]
            0 <= k < context_tops(single_symbol_contexts(run_contexts(g, w)), g.start_label()).len()
                ==> {
                &&& context_tops(single_symbol_contexts(run_contexts(g, w)), g.start_label())[k]
                    == g.start_label()
                &&& exists|t: BinaryTree<T>|
                    g.derives(t) && t.root_label() == g.start_label() && #[trigger] t.tokens() == w
            },
{
    let start = g.start_label();
    let cs = run_contexts(g, w);
    let singles = single_symbol_contexts(cs);
    let tops = context_tops(singles, start);
    let f_single = |c: Seq<SymbolView<Seq<char>>>| if c.len() == 1 { Some(c) } else { None };
    let f_top = |c: Seq<SymbolView<Seq<char>>>|
        if c.len() > 0 && c[0] == SymbolView::Complete(start) {
            Some(start)
        } else {
            None
        };
    assert forall|k: int| 0 <= k < tops.len() implies {
        &&& #[trigger] tops[k] == start
        &&& exists|t: BinaryTree<T>|
            g.derives(t) && t.root_label() == start && #[trigger] t.tokens() == w
    } by {
        lemma_filter_map_source(singles, f_top, k);
        let i = choose|i: int| 0 <= i < singles.len() && f_top(singles[i]) == Some(tops[k]);
        lemma_filter_map_source(cs, f_single, i);
        let j = choose|j: int| 0 <= j < cs.len() && f_single(cs[j]) == Some(singles[i]);
        lemma_run_contexts_sound(g, w);
        assert(context_explains(g, cs[j], w));
        let trees = choose|trees: Seq<BinaryTree<T>>| witnesses(g, cs[j], trees, w);
        let t = trees[0];
        assert(g.derives(t));
        assert(trees.drop_first() =~= Seq::<BinaryTree<T>>::empty());
        assert(stack_tokens(trees.drop_first()) == Seq::<T>::empty());
        assert(t.tokens() =~= w);
    }
}

/// After reading any input, only the top symbol of each context may be complete.
pub proof fn lemma_run_contexts_shape<T: Token>(g: BinaryGrammar<T>, w: Seq<T>)
    ensures
        forall|k: int|
            0 <= k < run_contexts(g, w).len() ==> only_top_complete(#[trigger] run_contexts(g, w)[k]),
    decreases w.len(),
{
    if w.len() > 0 {
        lemma_run_contexts_shape(g, w.drop_last());
        let cs = run_contexts(g, w.drop_last());
        let token = w.last();
        let ss = cs.map_values(|c: Seq<SymbolView<Seq<char>>>| context_apply_token(c, token, g));
        assert forall|i: int, j: int| 0 <= i < ss.len() && 0 <= j < ss[i].len() implies (|c: Seq<
            SymbolView<Seq<char>>,
        >| only_top_complete(c))(#[trigger] ss[i][j]) by {
            lemma_context_apply_token_shape(cs[i], token, g);
        }
        lemma_flatten_all(ss, |c: Seq<SymbolView<Seq<char>>>| only_top_complete(c));
    }
}

/// Reading a token from contexts whose incomplete symbols all start binary
/// rules gives contexts whose incomplete symbols all start binary rules.
pub proof fn lemma_state_apply_left_corners<T: Token>(
    contexts: Seq<Seq<SymbolView<Seq<char>>>>,
    token: T,
    g: BinaryGrammar<T>,
)
    requires
        forall|k: int| 0 <= k < contexts.len() ==> incompletes_start_rules(g, #[trigger] contexts[k]),
    ensures
        forall|k: int|
            0 <= k < state_apply(contexts, token, g).len() ==> incompletes_start_rules(
                g,
                #[trigger] state_apply(contexts, token, g)[k],
            ),
{
    let ss = contexts.map_values(|c: Seq<SymbolView<Seq<char>>>| context_apply_token(c, token, g));
    assert forall|i: int, j: int| 0 <= i < ss.len() && 0 <= j < ss[i].len() implies (|c: Seq<
        SymbolView<Seq<char>>,
    >| incompletes_start_rules(g, c))(#[trigger] ss[i][j]) by {
        lemma_context_apply_token_left_corners(contexts[i], token, g);
    }
    lemma_flatten_all(ss, |c: Seq<SymbolView<Seq<char>>>| incompletes_start_rules(g, c));
}

/// After reading any input, every incomplete symbol of every context is the
/// left child of some binary rule: the parser never waits for a right child
/// that no rule can take.
pub proof fn lemma_run_contexts_left_corners<T: Token>(g: BinaryGrammar<T>, w: Seq<T>)
    ensures
        forall|k: int|
            0 <= k < run_contexts(g, w).len() ==> incompletes_start_rules(
                g,
                #[trigger] run_contexts(g, w)[k],
            ),
    decreases w.len(),
{
    if w.len() == 0 {
        assert(run_contexts(g, w)[0] =~= Seq::<SymbolView<Seq<char>>>::empty());
    } else {
        lemma_run_contexts_left_corners(g, w.drop_last());
        lemma_state_apply_left_corners(run_contexts(g, w.drop_last()), w.last(), g);
    }
}

/// Reading the tokens of a derived tree reaches, before each leaf, the
/// context of the left children waiting there, and after the last leaf the
/// context holding the complete tree alone.
proof fn lemma_run_contexts_reach<T: Token>(g: BinaryGrammar<T>, t: BinaryTree<T>, k: int)
    requires
        g.derives(t),
        0 <= k <= t.tokens().len(),
    ensures
        k < t.tokens().len() ==> run_contexts(g, t.tokens().take(k)).contains(waiting_lefts(t, k)),
        k == t.tokens().len() ==> run_contexts(g, t.tokens()).contains(
            seq![SymbolView::Complete(t.root_label())],
        ),
    decreases k,
{
    let w = t.tokens();
    if k == 0 {
        lemma_tokens_nonempty(t);
        lemma_waiting_lefts_first(t);
        assert(w.take(0) =~= Seq::<T>::empty());
        assert(run_contexts(g, w.take(0))[0] == waiting_lefts(t, 0));
    } else {
        lemma_run_contexts_reach(g, t, k - 1);
        let prev = run_contexts(g, w.take(k - 1));
        let c = waiting_lefts(t, k - 1);
        let i = choose|i: int| 0 <= i < prev.len() && prev[i] == c;
        let token = w[k - 1];
        let empty = Seq::<SymbolView<Seq<char>>>::empty();
        lemma_read_leaf(g, t, k - 1, empty, true);
        assert(c + empty =~= c);
        assert(w.take(k).drop_last() =~= w.take(k - 1));
        assert(w.take(k).last() == token);
        let f = |x: Seq<SymbolView<Seq<char>>>| context_apply_token(x, token, g);
        let ss = prev.map_values(f);
        assert(ss[i] == context_apply_token(c, token, g));
        let target = if k < w.len() {
            waiting_lefts(t, k)
        } else {
            seq![SymbolView::Complete(t.root_label())]
        };
        if k < w.len() {
            assert(waiting_lefts(t, k) + empty =~= waiting_lefts(t, k));
        } else {
            let d = context_apply(empty, SymbolView::Complete(t.root_label()), g);
            assert(d[0] == target);
            assert(d.contains(target));
            assert(offered(true, t.root_label()) == SymbolView::Complete(t.root_label()));
            assert(w.take(k) =~= w);
        }
        assert(ss[i].contains(target));
        let j = choose|j: int| 0 <= j < ss[i].len() && ss[i][j] == target;
        lemma_flatten_member(ss, i, j);
    }
}

/// The left-corner parse decides the language: after reading `w`, the tops of
/// the single-symbol contexts hold a label exactly when the grammar derives a
/// tree with the start label at its root whose tokens are `w`.
pub proof fn lemma_tops_exact<T: Token>(g: BinaryGrammar<T>, w: Seq<T>)
    ensures
        context_tops(single_symbol_contexts(run_contexts(g, w)), g.start_label()).len() > 0
            <==> exists|t: BinaryTree<T>|
            g.derives(t) && t.root_label() == g.start_label() && #[trigger] t.tokens() == w,
{
    let start = g.start_label();
    let cs = run_contexts(g, w);
    let singles = single_symbol_contexts(cs);
    let tops = context_tops(singles, start);
    if tops.len() > 0 {
        lemma_tops_sound(g, w);
        assert(tops[0] == tops[0]);
    }
    if exists|t: BinaryTree<T>| g.derives(t) && t.root_label() == start && #[trigger] t.tokens() == w {
        let t = choose|t: BinaryTree<T>| g.derives(t) && t.root_label() == start && #[trigger] t.tokens() == w;
        lemma_run_contexts_reach(g, t, w.len() as int);
        let single = seq![SymbolView::Complete(start)];
        let i = choose|i: int| 0 <= i < cs.len() && cs[i] == single;
        let f_single = |c: Seq<SymbolView<Seq<char>>>| if c.len() == 1 { Some(c) } else { None };
        let f_top = |c: Seq<SymbolView<Seq<char>>>|
            if c.len() > 0 && c[0] == SymbolView::Complete(start) {
                Some(start)
            } else {
                None
            };
        lemma_filter_map_member(cs, f_single, i);
        let j = choose|j: int| 0 <= j < singles.len() && singles[j] == single;
        lemma_filter_map_member(singles, f_top, j);
    }
}

/// The two parsers agree: the left-corner parse accepts `w` exactly when the
/// stack parse of `w` has a tree with the start label at its root.
pub proof fn lemma_parsers_agree<T: Token>(g: BinaryGrammar<T>, w: Seq<T>)
    ensures
        context_tops(single_symbol_contexts(run_contexts(g, w)), g.start_label()).len() > 0
            <==> exists|i: int|
            0 <= i < parses(g, w).len() && (#[trigger] parses(g, w)[i]).root_label()
                == g.start_label(),
{
    lemma_tops_exact(g, w);
    lemma_parses_exact(g, w);
    let ps = parses(g, w);
    if exists|t: BinaryTree<T>|
        g.derives(t) && t.root_label() == g.start_label() && #[trigger] t.tokens() == w {
        let t = choose|t: BinaryTree<T>|
            g.derives(t) && t.root_label() == g.start_label() && #[trigger] t.tokens() == w;
        assert(ps.contains(t));
        let i = choose|i: int| 0 <= i < ps.len() && ps[i] == t;
        assert(ps[i].root_label() == g.start_label());
    }
    if exists|i: int| 0 <= i < ps.len() && (#[trigger] ps[i]).root_label() == g.start_label() {
        let i = choose|i: int| 0 <= i < ps.len() && (#[trigger] ps[i]).root_label() == g.start_label();
        assert(ps.contains(ps[i]));
        assert(g.derives(ps[i]) && ps[i].tokens() == w);
    }
}

} // verus!
