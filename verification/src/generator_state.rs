use vstd::prelude::*;

use crate::binary_grammar::BinaryGrammar;
use crate::binary_tree::{lemma_tokens_nonempty, BinaryTree};
use crate::seq_facts::{
    lemma_filter_map_member, lemma_filter_map_no_duplicates, lemma_filter_map_source,
    lemma_flatten_all, lemma_flatten_member, lemma_flatten_no_duplicates,
};
use crate::stack::{
    explains, lemma_shift_reductions_explain, lemma_shift_reductions_unfold, lemma_unfold_right,
    shift_reductions, stack_tokens, stacks_items, unfold_right, Stack,
};
use crate::token::Token;

verus! {

/// All the stacks of partial parses that the tokens read so far admit.
#[derive(Debug)]
pub struct GeneratorState<T>(Vec<Stack<BinaryTree<T>>>);

/// The stacks that reading `token` gives from one stack: for each label of
/// the token, in order, the stacks of shifting a leaf with that label.
pub open spec fn token_step<T: Token>(
    stack: Seq<BinaryTree<T>>,
    token: T,
    g: BinaryGrammar<T>,
) -> Seq<Seq<BinaryTree<T>>> {
    match g.terminal_labels(token) {
        None => Seq::empty(),
        Some(labels) => labels.map_values(
            |label: String| shift_reductions(stack, BinaryTree::Terminal { label, token }, g),
        ).flatten(),
    }
}

/// The stacks that reading `token` gives from each stack, in order.
pub open spec fn process_stacks<T: Token>(
    stacks: Seq<Seq<BinaryTree<T>>>,
    token: T,
    g: BinaryGrammar<T>,
) -> Seq<Seq<BinaryTree<T>>> {
    stacks.map_values(|s: Seq<BinaryTree<T>>| token_step(s, token, g)).flatten()
}

/// The top trees of the non-empty stacks, in order.
pub open spec fn stack_tops<T>(stacks: Seq<Seq<BinaryTree<T>>>) -> Seq<BinaryTree<T>> {
    stacks.filter_map(
        |s: Seq<BinaryTree<T>>|
            if s.len() > 0 {
                Some(s[0])
            } else {
                None
            },
    )
}

/// The stacks that hold exactly one tree, in order.
pub open spec fn single_stacks<T>(stacks: Seq<Seq<BinaryTree<T>>>) -> Seq<Seq<BinaryTree<T>>> {
    stacks.filter_map(
        |s: Seq<BinaryTree<T>>|
            if s.len() == 1 {
                Some(s)
            } else {
                None
            },
    )
}

/// A single stack gives its top tree, when it has one, and nothing when empty.
pub proof fn lemma_stack_tops_one<T>(s: Seq<BinaryTree<T>>)
    ensures
        stack_tops(seq![s]) == if s.len() > 0 {
            seq![s[0]]
        } else {
            Seq::<BinaryTree<T>>::empty()
        },
{
    let ss = seq![s];
    assert(ss.drop_last() =~= Seq::<Seq<BinaryTree<T>>>::empty());
    assert(ss.last() == s);
    reveal_with_fuel(Seq::filter_map, 2);
    if s.len() > 0 {
        assert(stack_tops(ss) =~= seq![s[0]]);
    } else {
        assert(stack_tops(ss) =~= Seq::<BinaryTree<T>>::empty());
    }
}

/// The tops of two runs of stacks are the tops of the first run followed by
/// the tops of the second.
pub proof fn lemma_stack_tops_append<T>(a: Seq<Seq<BinaryTree<T>>>, b: Seq<Seq<BinaryTree<T>>>)
    ensures
        stack_tops(a + b) == stack_tops(a) + stack_tops(b),
    decreases b.len(),
{
    if b.len() == 0 {
        assert(a + b =~= a);
        assert(stack_tops(b) =~= Seq::<BinaryTree<T>>::empty());
        assert(stack_tops(a) + stack_tops(b) =~= stack_tops(a));
    } else {
        let ab = a + b;
        assert(ab.drop_last() =~= a + b.drop_last());
        assert(ab.last() == b.last());
        lemma_stack_tops_append(a, b.drop_last());
        if b.last().len() > 0 {
            assert(stack_tops(ab) =~= stack_tops(a) + stack_tops(b));
        } else {
            assert(stack_tops(ab) =~= stack_tops(a) + stack_tops(b));
        }
    }
}

/// When no stack is empty, each stack gives its top tree, in order.
pub proof fn lemma_stack_tops_nonempty<T>(stacks: Seq<Seq<BinaryTree<T>>>)
    requires
        forall|i: int| 0 <= i < stacks.len() ==> (#[trigger] stacks[i]).len() > 0,
    ensures
        stack_tops(stacks).len() == stacks.len(),
        forall|i: int| 0 <= i < stacks.len() ==> #[trigger] stack_tops(stacks)[i] == stacks[i][0],
    decreases stacks.len(),
{
    if stacks.len() > 0 {
        let rest = stacks.drop_last();
        assert forall|i: int| 0 <= i < rest.len() implies (#[trigger] rest[i]).len() > 0 by {
            assert(rest[i] == stacks[i]);
        }
        lemma_stack_tops_nonempty(rest);
        assert(stacks.last() == stacks[stacks.len() - 1]);
        assert forall|i: int| 0 <= i < stacks.len() implies #[trigger] stack_tops(stacks)[i]
            == stacks[i][0] by {
            if i < rest.len() {
                assert(rest[i] == stacks[i]);
            }
        }
    }
}

impl<T> GeneratorState<T> {
    /// The stacks, each as its elements, top first.
    pub closed spec fn stacks(self) -> Seq<Seq<BinaryTree<T>>> {
        stacks_items(self.0@)
    }
}

impl<T: Token> Default for GeneratorState<T> {
    /// The state before any token: one empty stack.
    fn default() -> (r: Self)
        ensures
            r.stacks() == seq![Seq::<BinaryTree<T>>::empty()],
    {
        let r = GeneratorState(vec![Stack::default()]);
        proof {
            assert(r.stacks() =~= seq![Seq::<BinaryTree<T>>::empty()]);
        }
        r
    }
}

impl<T: Token> GeneratorState<T> {
    /// The number of stacks.
    pub fn len(&self) -> (r: usize)
        ensures
            r == self.stacks().len(),
    {
        self.0.len()
    }

    /// Reads one token: every stack is replaced by the stacks of shifting a
    /// leaf for each of the token's labels and reducing.
    pub fn process(self, token: T, grammar: &BinaryGrammar<T>) -> (r: Self)
        ensures
            r.stacks() == process_stacks(self.stacks(), token, *grammar),
    {
        let mut out: Vec<Stack<BinaryTree<T>>> = Vec::new();
        let labels = grammar.lookup_terminals(&token);
        let n = self.0.len();
        let mut i: usize = 0;
        while i < n
            invariant
                n == self.0@.len(),
                i <= n,
                labels matches Some(v) ==> grammar.terminal_labels(token) == Some(v@),
                labels is None ==> grammar.terminal_labels(token) is None,
                stacks_items(out@) == process_stacks(self.stacks().take(i as int), token, *grammar),
            decreases n - i,
        {
            let current_stack = &self.0[i];
            let ghost before = stacks_items(out@);
            let ghost step = token_step(current_stack.items(), token, *grammar);
            match labels {
                None => {
                    proof {
                        assert(step =~= Seq::<Seq<BinaryTree<T>>>::empty());
                    }
                },
                Some(t_labels) => {
                    let m = t_labels.len();
                    let mut j: usize = 0;
                    while j < m
                        invariant
                            m == t_labels@.len(),
                            j <= m,
                            grammar.terminal_labels(token) == Some(t_labels@),
                            stacks_items(out@) == before + t_labels@.take(j as int).map_values(
                                |label: String|
                                    shift_reductions(
                                        current_stack.items(),
                                        BinaryTree::Terminal { label, token },
                                        *grammar,
                                    ),
                            ).flatten(),
                        decreases m - j,
                    {
                        let leaf = BinaryTree::Terminal { label: t_labels[j].clone(), token };
                        let more = current_stack.clone().shift_reduce(leaf, grammar);
                        let ghost mid = stacks_items(out@);
                        let mut k: usize = 0;
                        while k < more.len()
                            invariant
                                k <= more@.len(),
                                stacks_items(out@) == mid + stacks_items(more@.take(k as int)),
                            decreases more@.len() - k,
                        {
                            let ghost old_out = out@;
                            out.push(more[k].clone());
                            proof {
                                assert(stacks_items(out@) =~= stacks_items(old_out).push(
                                    more@[k as int].items(),
                                ));
                                assert(more@.take(k + 1) =~= more@.take(k as int).push(more@[k as int]));
                                assert(stacks_items(more@.take(k + 1)) =~= stacks_items(
                                    more@.take(k as int),
                                ).push(more@[k as int].items()));
                                assert(stacks_items(out@) =~= mid + stacks_items(more@.take(k + 1)));
                            }
                            k = k + 1;
                        }
                        proof {
                            assert(more@.take(k as int) =~= more@);
                            let f = |label: String|
                                shift_reductions(
                                    current_stack.items(),
                                    BinaryTree::Terminal { label, token },
                                    *grammar,
                                );
                            assert(t_labels@.take(j + 1).map_values(f) =~= t_labels@.take(
                                j as int,
                            ).map_values(f).push(f(t_labels@[j as int])));
                            t_labels@.take(j as int).map_values(f).lemma_flatten_push(
                                f(t_labels@[j as int]),
                            );
                        }
                        j = j + 1;
                    }
                    proof {
                        assert(t_labels@.take(m as int) =~= t_labels@);
                    }
                },
            }
            proof {
                let g = |s: Seq<BinaryTree<T>>| token_step(s, token, *grammar);
                assert(self.stacks().take(i + 1) =~= self.stacks().take(i as int).push(
                    self.stacks()[i as int],
                ));
                assert(self.stacks().take(i + 1).map_values(g) =~= self.stacks().take(
                    i as int,
                ).map_values(g).push(g(self.stacks()[i as int])));
                self.stacks().take(i as int).map_values(g).lemma_flatten_push(
                    g(self.stacks()[i as int]),
                );
            }
            i = i + 1;
        }
        proof {
            assert(self.stacks().take(n as int) =~= self.stacks());
        }
        GeneratorState(out)
    }

    /// The top trees of the non-empty stacks.
    pub fn tops(self) -> (r: Vec<BinaryTree<T>>)
        ensures
            r@ == stack_tops(self.stacks()),
    {
        let mut out: Vec<BinaryTree<T>> = Vec::new();
        let n = self.0.len();
        let mut i: usize = 0;
        while i < n
            invariant
                n == self.0@.len(),
                i <= n,
                out@ == stack_tops(self.stacks().take(i as int)),
            decreases n - i,
        {
            let stack = &self.0[i];
            proof {
                assert(self.stacks().take(i + 1).drop_last() =~= self.stacks().take(i as int));
            }
            if stack.0.is_some() {
                out.push(stack.top());
            }
            i = i + 1;
        }
        proof {
            assert(self.stacks().take(n as int) =~= self.stacks());
        }
        out
    }

    /// Keeps the stacks that hold exactly one tree.
    pub fn filter_stacks(self) -> (r: Self)
        ensures
            r.stacks() == single_stacks(self.stacks()),
    {
        let mut out: Vec<Stack<BinaryTree<T>>> = Vec::new();
        let n = self.0.len();
        let mut i: usize = 0;
        while i < n
            invariant
                n == self.0@.len(),
                i <= n,
                stacks_items(out@) == single_stacks(self.stacks().take(i as int)),
            decreases n - i,
        {
            let stack = &self.0[i];
            proof {
                assert(self.stacks().take(i + 1).drop_last() =~= self.stacks().take(i as int));
            }
            let single = match &stack.0 {
                None => false,
                Some(rc) => {
                    proof {
                        assert(stack.items() == seq![rc.0] + rc.1.items());
                        if rc.1.0.is_some() {
                            assert(rc.1.items().len() > 0);
                        }
                    }
                    rc.1.0.is_none()
                },
            };
            proof {
                assert(self.stacks()[i as int] == stack.items());
                assert(self.stacks().take(i + 1).last() == stack.items());
                assert(single == (stack.items().len() == 1));
            }
            if single {
                out.push(stack.clone());
                proof {
                    assert(stacks_items(out@) =~= stacks_items(out@.drop_last()).push(stack.items()));
                }
            }
            i = i + 1;
        }
        proof {
            assert(self.stacks().take(n as int) =~= self.stacks());
        }
        GeneratorState(out)
    }
}

/// The stacks after reading `w` from the start state, one token at a time.
pub open spec fn run<T: Token>(g: BinaryGrammar<T>, w: Seq<T>) -> Seq<Seq<BinaryTree<T>>>
    decreases w.len(),
{
    if w.len() == 0 {
        seq![Seq::empty()]
    } else {
        process_stacks(run(g, w.drop_last()), w.last(), g)
    }
}

/// The parses of `w`: after reading it, the trees of the stacks that hold one tree.
pub open spec fn parses<T: Token>(g: BinaryGrammar<T>, w: Seq<T>) -> Seq<BinaryTree<T>> {
    stack_tops(single_stacks(run(g, w)))
}

proof fn lemma_token_step_explains<T: Token>(
    g: BinaryGrammar<T>,
    stack: Seq<BinaryTree<T>>,
    token: T,
    w: Seq<T>,
)
    requires
        explains(g, stack, w),
    ensures
        forall|k: int|
            0 <= k < token_step(stack, token, g).len() ==> explains(
                g,
                #[trigger] token_step(stack, token, g)[k],
                w.push(token),
            ),
{
    if let Some(labels) = g.terminal_labels(token) {
        let f = |label: String| shift_reductions(stack, BinaryTree::Terminal { label, token }, g);
        let ss = labels.map_values(f);
        assert forall|i: int, j: int| 0 <= i < ss.len() && 0 <= j < ss[i].len() implies (|s: Seq<
            BinaryTree<T>,
        >| explains(g, s, w.push(token)))(#[trigger] ss[i][j]) by {
            let leaf = BinaryTree::Terminal { label: labels[i], token };
            assert(labels.contains(labels[i]));
            assert(g.derives(leaf));
            let pushed = seq![leaf] + stack;
            assert(pushed.drop_first() =~= stack);
            assert(stack_tokens(pushed) =~= w.push(token));
            assert forall|m: int| 0 <= m < pushed.len() implies g.derives(#[trigger] pushed[m]) by {
                if m > 0 {
                    assert(pushed[m] == stack[m - 1]);
                }
            }
            lemma_shift_reductions_explain(g, stack, leaf, w.push(token));
            assert(ss[i] == shift_reductions(stack, leaf, g));
        }
        lemma_flatten_all(ss, |s: Seq<BinaryTree<T>>| explains(g, s, w.push(token)));
    }
}

/// Reading a token keeps every stack explaining the input: if each stack
/// explains `w`, each stack that `process` gives explains `w` followed by the token.
pub proof fn lemma_process_sound<T: Token>(
    g: BinaryGrammar<T>,
    stacks: Seq<Seq<BinaryTree<T>>>,
    token: T,
    w: Seq<T>,
)
    requires
        forall|i: int| 0 <= i < stacks.len() ==> explains(g, #[trigger] stacks[i], w),
    ensures
        forall|k: int|
            0 <= k < process_stacks(stacks, token, g).len() ==> explains(
                g,
                #[trigger] process_stacks(stacks, token, g)[k],
                w.push(token),
            ),
{
    let ss = stacks.map_values(|s: Seq<BinaryTree<T>>| token_step(s, token, g));
    assert forall|i: int, j: int| 0 <= i < ss.len() && 0 <= j < ss[i].len() implies (|s: Seq<
        BinaryTree<T>,
    >| explains(g, s, w.push(token)))(#[trigger] ss[i][j]) by {
        lemma_token_step_explains(g, stacks[i], token, w);
    }
    lemma_flatten_all(ss, |s: Seq<BinaryTree<T>>| explains(g, s, w.push(token)));
}

/// Every stack after reading `w` explains `w`.
pub proof fn lemma_run_sound<T: Token>(g: BinaryGrammar<T>, w: Seq<T>)
    ensures
        forall|k: int| 0 <= k < run(g, w).len() ==> explains(g, #[trigger] run(g, w)[k], w),
    decreases w.len(),
{
    if w.len() == 0 {
        assert(explains(g, run(g, w)[0], w)) by {
            assert(stack_tokens(Seq::<BinaryTree<T>>::empty()) =~= w);
        }
    } else {
        lemma_run_sound(g, w.drop_last());
        lemma_process_sound(g, run(g, w.drop_last()), w.last(), w.drop_last());
        assert(w.drop_last().push(w.last()) =~= w);
    }
}

/// Every stack that explains `w` is among the stacks after reading `w`.
pub proof fn lemma_run_complete<T: Token>(
    g: BinaryGrammar<T>,
    w: Seq<T>,
    stack: Seq<BinaryTree<T>>,
)
    requires
        explains(g, stack, w),
    ensures
        run(g, w).contains(stack),
    decreases w.len(),
{
    if stack.len() > 0 {
        lemma_tokens_nonempty(stack[0]);
    }
    if w.len() == 0 {
        assert(stack =~= Seq::<BinaryTree<T>>::empty());
        assert(run(g, w)[0] == stack);
    } else {
        let t = stack[0];
        let below = stack.drop_first();
        assert(g.derives(t));
        assert forall|i: int| 0 <= i < below.len() implies g.derives(#[trigger] below[i]) by {
            assert(below[i] == stack[i + 1]);
        }
        lemma_unfold_right(g, t, below);
        let (p, leaf) = unfold_right(t, below);
        let label = leaf->Terminal_label;
        let token = leaf->Terminal_token;
        assert(leaf.tokens() == seq![token]);
        assert(stack_tokens(p).push(token) == w);
        assert(stack_tokens(p) =~= w.drop_last());
        assert(token == w.last());
        lemma_run_complete(g, w.drop_last(), p);
        let prev = run(g, w.drop_last());
        let i = choose|i: int| 0 <= i < prev.len() && prev[i] == p;
        let labels = g.terminal_labels(token).unwrap();
        let j = choose|j: int| 0 <= j < labels.len() && labels[j] == label;
        let f = |l: String| shift_reductions(p, BinaryTree::Terminal { label: l, token }, g);
        let sr = shift_reductions(p, leaf, g);
        let k = choose|k: int|
            0 <= k <= sr.len() && #[trigger] sr.skip(k) == shift_reductions(below, t, g);
        assert(shift_reductions(below, t, g)[0] =~= stack);
        assert(sr.skip(k).len() >= 1);
        assert(sr.skip(k)[0] == sr[k]);
        assert(sr[k] == stack);
        assert(labels.map_values(f)[j] == sr);
        lemma_flatten_member(labels.map_values(f), j, k);
        let step = token_step(p, token, g);
        let m = choose|m: int| 0 <= m < step.len() && step[m] == stack;
        let ss = prev.map_values(|s: Seq<BinaryTree<T>>| token_step(s, token, g));
        assert(ss[i] == step);
        lemma_flatten_member(ss, i, m);
    }
}

/// The parses of `w` are exactly the trees that the grammar derives whose
/// tokens are `w`.
pub proof fn lemma_parses_exact<T: Token>(g: BinaryGrammar<T>, w: Seq<T>)
    ensures
        forall|t: BinaryTree<T>|
            #![trigger parses(g, w).contains(t)]
            parses(g, w).contains(t) <==> (g.derives(t) && t.tokens() == w),
{
    let f_single = |s: Seq<BinaryTree<T>>|
        if s.len() == 1 {
            Some(s)
        } else {
            None
        };
    let f_top = |s: Seq<BinaryTree<T>>|
        if s.len() > 0 {
            Some(s[0])
        } else {
            None
        };
    let runs = run(g, w);
    let singles = single_stacks(runs);
    assert forall|t: BinaryTree<T>| #![trigger parses(g, w).contains(t)] parses(g, w).contains(t)
        <==> (g.derives(t) && t.tokens() == w) by {
        if parses(g, w).contains(t) {
            let k = choose|k: int| 0 <= k < parses(g, w).len() && parses(g, w)[k] == t;
            lemma_filter_map_source(singles, f_top, k);
            let i = choose|i: int| 0 <= i < singles.len() && f_top(singles[i]) == Some(t);
            lemma_filter_map_source(runs, f_single, i);
            let j = choose|j: int| 0 <= j < runs.len() && f_single(runs[j]) == Some(singles[i]);
            lemma_run_sound(g, w);
            assert(explains(g, runs[j], w));
            assert(runs[j][0] == t);
            assert(runs[j].drop_first() =~= Seq::<BinaryTree<T>>::empty());
            assert(stack_tokens(runs[j].drop_first()) == Seq::<T>::empty());
            assert(stack_tokens(runs[j]) =~= t.tokens());
        }
        if g.derives(t) && t.tokens() == w {
            let single = seq![t];
            assert(single.drop_first() =~= Seq::<BinaryTree<T>>::empty());
            assert(stack_tokens(single.drop_first()) == Seq::<T>::empty());
            assert(stack_tokens(single) =~= w);
            lemma_run_complete(g, w, single);
            let i = choose|i: int| 0 <= i < runs.len() && runs[i] == single;
            lemma_filter_map_member(runs, f_single, i);
            let j = choose|j: int| 0 <= j < singles.len() && singles[j] == single;
            lemma_filter_map_member(singles, f_top, j);
        }
    }
}

/// No token has the same label from two of its terminal rules.
pub open spec fn distinct_token_labels<T: Token>(g: BinaryGrammar<T>) -> bool {
    forall|t: T| #[trigger] g.terminal_labels(t) matches Some(ls) ==> ls.no_duplicates()
}

/// The label at the root of a tree.
spec fn node_label<T>(t: BinaryTree<T>) -> String {
    match t {
        BinaryTree::Terminal { label, .. } => label,
        BinaryTree::Nonterminal { label, .. } => label,
    }
}

proof fn lemma_token_step_no_duplicates<T: Token>(
    stack: Seq<BinaryTree<T>>,
    token: T,
    g: BinaryGrammar<T>,
)
    requires
        distinct_token_labels(g),
    ensures
        token_step(stack, token, g).no_duplicates(),
        forall|k: int|
            0 <= k < token_step(stack, token, g).len() ==> {
                &&& (#[trigger] token_step(stack, token, g)[k]).len() > 0
                &&& unfold_right(
                    token_step(stack, token, g)[k][0],
                    token_step(stack, token, g)[k].drop_first(),
                ).0 == stack
            },
{
    if let Some(labels) = g.terminal_labels(token) {
        let f = |label: String| shift_reductions(stack, BinaryTree::Terminal { label, token }, g);
        let ss = labels.map_values(f);
        let key = |r: Seq<BinaryTree<T>>|
            choose|i: int|
                0 <= i < labels.len() && labels[i] == node_label(
                    unfold_right(r[0], r.drop_first()).1,
                );
        assert forall|i: int| 0 <= i < ss.len() implies (#[trigger] ss[i]).no_duplicates() by {
            let leaf = BinaryTree::Terminal { label: labels[i], token };
            lemma_shift_reductions_unfold(stack, leaf, g);
            assert(ss[i] == shift_reductions(stack, leaf, g));
        }
        assert forall|i: int, j: int| 0 <= i < ss.len() && 0 <= j < ss[i].len() implies key(
            #[trigger] ss[i][j],
        ) == i && ss[i][j].len() > 0 && unfold_right(ss[i][j][0], ss[i][j].drop_first()).0
            == stack by {
            let leaf = BinaryTree::Terminal { label: labels[i], token };
            lemma_shift_reductions_unfold(stack, leaf, g);
            assert(ss[i] == shift_reductions(stack, leaf, g));
            let r = ss[i][j];
            assert(unfold_right(r[0], r.drop_first()) == (stack, leaf));
            assert(0 <= i < labels.len() && labels[i] == node_label(
                unfold_right(r[0], r.drop_first()).1,
            ));
            let m = key(r);
            assert(labels[m] == labels[i]);
        }
        lemma_flatten_no_duplicates(ss, key);
        let p = |r: Seq<BinaryTree<T>>|
            r.len() > 0 && unfold_right(r[0], r.drop_first()).0 == stack;
        assert forall|i: int, j: int| 0 <= i < ss.len() && 0 <= j < ss[i].len() implies p(
            #[trigger] ss[i][j],
        ) by {
            assert(key(ss[i][j]) == i);
        }
        lemma_flatten_all(ss, p);
    }
}

/// Reading `w` never gives the same stack twice, when no token has the
/// same label from two of its terminal rules.
pub proof fn lemma_run_no_duplicates<T: Token>(g: BinaryGrammar<T>, w: Seq<T>)
    requires
        distinct_token_labels(g),
    ensures
        run(g, w).no_duplicates(),
    decreases w.len(),
{
    if w.len() > 0 {
        let prev = run(g, w.drop_last());
        let token = w.last();
        lemma_run_no_duplicates(g, w.drop_last());
        let ss = prev.map_values(|s: Seq<BinaryTree<T>>| token_step(s, token, g));
        let key = |r: Seq<BinaryTree<T>>|
            choose|i: int| 0 <= i < prev.len() && prev[i] == unfold_right(r[0], r.drop_first()).0;
        assert forall|i: int| 0 <= i < ss.len() implies (#[trigger] ss[i]).no_duplicates() by {
            lemma_token_step_no_duplicates(prev[i], token, g);
        }
        assert forall|i: int, j: int| 0 <= i < ss.len() && 0 <= j < ss[i].len() implies key(
            #[trigger] ss[i][j],
        ) == i by {
            lemma_token_step_no_duplicates(prev[i], token, g);
            let r = ss[i][j];
            assert(r == token_step(prev[i], token, g)[j]);
            assert(0 <= i < prev.len() && prev[i] == unfold_right(r[0], r.drop_first()).0);
            let m = key(r);
            assert(prev[m] == prev[i]);
        }
        lemma_flatten_no_duplicates(ss, key);
    }
}

/// Each parse of `w` comes once, when no token has the same label from two of
/// its terminal rules.
pub proof fn lemma_parses_unique<T: Token>(g: BinaryGrammar<T>, w: Seq<T>)
    requires
        distinct_token_labels(g),
    ensures
        parses(g, w).no_duplicates(),
{
    let f_single = |s: Seq<BinaryTree<T>>|
        if s.len() == 1 {
            Some(s)
        } else {
            None
        };
    let f_top = |s: Seq<BinaryTree<T>>|
        if s.len() > 0 {
            Some(s[0])
        } else {
            None
        };
    let runs = run(g, w);
    lemma_run_no_duplicates(g, w);
    lemma_filter_map_no_duplicates(runs, f_single);
    let singles = single_stacks(runs);
    assert forall|i: int| 0 <= i < singles.len() implies (#[trigger] singles[i]).len() == 1 by {
        lemma_filter_map_source(runs, f_single, i);
    }
    assert forall|i: int, j: int|
        0 <= i < singles.len() && 0 <= j < singles.len() && #[trigger] f_top(singles[i]) is Some
            && f_top(singles[i]) == #[trigger] f_top(singles[j]) implies i == j by {
        assert(singles[i].len() == 1 && singles[j].len() == 1);
        assert(singles[i] =~= singles[j]);
    }
    lemma_filter_map_no_duplicates(singles, f_top);
}

} // verus!
