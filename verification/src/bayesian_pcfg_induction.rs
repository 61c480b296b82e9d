//! Counting rule uses over sampled parses, for Bayesian induction of a
//! probabilistic context-free grammar.

use vstd::prelude::*;

verus! {

/// A grammar symbol: a nonterminal or a terminal, by name.
#[derive(Debug, PartialEq, Eq, Hash)]
pub enum Symbol {
    N(String),
    T(String),
}

/// A symbol as its kind and the characters of its name.
pub enum SymbolName {
    N(Seq<char>),
    T(Seq<char>),
}

impl View for Symbol {
    type V = SymbolName;

    open spec fn view(&self) -> SymbolName {
        match self {
            Symbol::N(s) => SymbolName::N(s@),
            Symbol::T(s) => SymbolName::T(s@),
        }
    }
}

impl Clone for Symbol {
    fn clone(&self) -> (r: Self)
        ensures
            r == *self,
    {
        match self {
            Symbol::N(s) => Symbol::N(s.clone()),
            Symbol::T(s) => Symbol::T(s.clone()),
        }
    }
}

/// A rule `lhs -> rhs`.
#[derive(Debug, PartialEq, Eq, Hash)]
pub struct Rule {
    pub lhs: String,
    pub rhs: Vec<Symbol>,
}

/// A rule as the characters of its left-hand side and the names of its right-hand side.
pub struct RuleView {
    pub lhs: Seq<char>,
    pub rhs: Seq<SymbolName>,
}

impl View for Rule {
    type V = RuleView;

    open spec fn view(&self) -> RuleView {
        RuleView { lhs: self.lhs@, rhs: self.rhs@.map_values(|s: Symbol| s@) }
    }
}

impl Clone for Rule {
    fn clone(&self) -> (r: Self)
        ensures
            r@ == self@,
    {
        let mut rhs: Vec<Symbol> = Vec::new();
        let n = self.rhs.len();
        let mut i: usize = 0;
        while i < n
            invariant
                n == self.rhs@.len(),
                i <= n,
                rhs@ =~= self.rhs@.take(i as int),
            decreases n - i,
        {
            rhs.push(self.rhs[i].clone());
            i = i + 1;
        }
        proof {
            assert(self.rhs@.take(n as int) =~= self.rhs@);
        }
        let r = Rule { lhs: self.lhs.clone(), rhs };
        proof {
            assert(r@.rhs =~= self@.rhs);
        }
        r
    }
}

/// Whether two symbols have the same kind and name.
pub fn same_symbol(a: &Symbol, b: &Symbol) -> (r: bool)
    ensures
        r == (a@ == b@),
{
    match (a, b) {
        (Symbol::N(x), Symbol::N(y)) => *x == *y,
        (Symbol::T(x), Symbol::T(y)) => *x == *y,
        _ => false,
    }
}

/// Whether two rules have the same left-hand side and right-hand side.
pub fn same_rule(a: &Rule, b: &Rule) -> (r: bool)
    ensures
        r == (a@ == b@),
{
    if a.lhs != b.lhs || a.rhs.len() != b.rhs.len() {
        proof {
            if a.rhs.len() != b.rhs.len() {
                assert(a@.rhs.len() != b@.rhs.len());
            }
        }
        return false;
    }
    let n = a.rhs.len();
    let mut i: usize = 0;
    while i < n
        invariant
            n == a.rhs@.len(),
            n == b.rhs@.len(),
            i <= n,
            forall|j: int| 0 <= j < i ==> a.rhs@[j]@ == b.rhs@[j]@,
        decreases n - i,
    {
        if !same_symbol(&a.rhs[i], &b.rhs[i]) {
            proof {
                assert(a@.rhs[i as int] != b@.rhs[i as int]);
            }
            return false;
        }
        i = i + 1;
    }
    proof {
        assert(a@.rhs =~= b@.rhs);
    }
    true
}

/// A grammar's rules.
#[derive(Debug)]
pub struct Grammar {
    pub rules: Vec<Rule>,
}

/// A sampled parse: its root, the rules it uses and the tokens it spans.
#[derive(Debug)]
pub struct ParseTree {
    pub root: String,
    pub rules_used: Vec<Rule>,
    pub yield_tokens: Vec<String>,
}

/// The rules of a sequence of rules, as views.
pub open spec fn rule_views(rules: Seq<Rule>) -> Seq<RuleView> {
    rules.map_values(|r: Rule| r@)
}

/// How often `r` occurs in `rules`.
pub open spec fn occurrences(rules: Seq<RuleView>, r: RuleView) -> nat
    decreases rules.len(),
{
    if rules.len() == 0 {
        0
    } else {
        occurrences(rules.drop_last(), r) + if rules.last() == r {
            1nat
        } else {
            0nat
        }
    }
}

/// How often `r` is used by the parses.
pub open spec fn parse_occurrences(parses: Seq<ParseTree>, r: RuleView) -> nat
    decreases parses.len(),
{
    if parses.len() == 0 {
        0
    } else {
        parse_occurrences(parses.drop_last(), r) + occurrences(
            rule_views(parses.last().rules_used@),
            r,
        )
    }
}

/// The state of the sampler: the grammar, the current parse of each
/// sentence, and how often each rule is used by the parses.
#[derive(Debug)]
pub struct ModelState {
    pub grammar: Grammar,
    pub parses: Vec<ParseTree>,
    pub counts: Vec<(Rule, usize)>,
}

impl ModelState {
    spec fn is_count_entry(self, r: RuleView, i: int) -> bool {
        &&& 0 <= i < self.counts@.len()
        &&& self.counts@[i].0@ == r
        &&& forall|j: int| 0 <= j < i ==> self.counts@[j].0@ != r
    }

    /// The recorded count of a rule, if the rule has one.
    pub closed spec fn count_of(self, r: RuleView) -> Option<nat> {
        if exists|i: int| self.is_count_entry(r, i) {
            Some(self.counts@[choose|i: int| self.is_count_entry(r, i)].1 as nat)
        } else {
            None
        }
    }

    /// No rule has two count entries.
    pub open spec fn counts_distinct(self) -> bool {
        forall|i: int, j: int|
            0 <= i < j < self.counts@.len() ==> #[trigger] self.counts@[i].0@
                != #[trigger] self.counts@[j].0@
    }

    /// The counts agree with the parses: each rule's count, none meaning
    /// zero, is how often the parses use it.
    pub closed spec fn counts_match(self) -> bool {
        forall|r: RuleView|
            #[trigger] parse_occurrences(self.parses@, r) == match self.count_of(r) {
                Some(c) => c,
                None => 0,
            }
    }

    proof fn lemma_same_counts(self, other: Self, r: RuleView)
        requires
            self.counts@ == other.counts@,
        ensures
            self.count_of(r) == other.count_of(r),
    {
        if exists|k: int| other.is_count_entry(r, k) {
            let k = choose|k: int| other.is_count_entry(r, k);
            other.lemma_count_entry(r, k);
            assert(self.is_count_entry(r, k));
            self.lemma_count_entry(r, k);
        } else {
            assert forall|k: int| !self.is_count_entry(r, k) by {
                if self.is_count_entry(r, k) {
                    assert(other.is_count_entry(r, k));
                }
            }
        }
    }

    proof fn lemma_count_entry(self, r: RuleView, i: int)
        requires
            self.is_count_entry(r, i),
        ensures
            self.count_of(r) == Some(self.counts@[i].1 as nat),
    {
        let k = choose|k: int| self.is_count_entry(r, k);
        assert(self.is_count_entry(r, k));
        if k < i {
            assert(self.counts@[k].0@ != r);
        } else if i < k {
            assert(self.counts@[i].0@ != r);
        }
    }

    fn find_count(&self, rule: &Rule) -> (r: Option<usize>)
        ensures
            r matches Some(i) ==> self.is_count_entry(rule@, i as int),
            r is None ==> forall|j: int| 0 <= j < self.counts@.len() ==> self.counts@[j].0@ != rule@,
            r is None ==> self.count_of(rule@) is None,
    {
        let mut i: usize = 0;
        while i < self.counts.len()
            invariant
                i <= self.counts@.len(),
                forall|j: int| 0 <= j < i ==> self.counts@[j].0@ != rule@,
            decreases self.counts@.len() - i,
        {
            if same_rule(&self.counts[i].0, rule) {
                return Some(i);
            }
            i = i + 1;
        }
        None
    }

    /// The count of `rule`, or `None` when it has none.
    pub fn count(&self, rule: &Rule) -> (r: Option<usize>)
        ensures
            match r {
                Some(c) => self.count_of(rule@) == Some(c as nat),
                None => self.count_of(rule@) is None,
            },
    {
        match self.find_count(rule) {
            Some(i) => {
                proof {
                    self.lemma_count_entry(rule@, i as int);
                }
                Some(self.counts[i].1)
            },
            None => None,
        }
    }

    /// Adds one to the count of `rule`, which starts at one when it has none.
    fn increment(&mut self, rule: &Rule)
        requires
            match old(self).count_of(rule@) {
                Some(c) => c < usize::MAX,
                None => true,
            },
        ensures
            final(self).count_of(rule@) == Some(
                match old(self).count_of(rule@) {
                    Some(c) => c + 1,
                    None => 1nat,
                },
            ),
            forall|r: RuleView| r != rule@ ==> final(self).count_of(r) == old(self).count_of(r),
            final(self).grammar == old(self).grammar,
            old(self).counts_distinct() ==> final(self).counts_distinct(),
            final(self).parses == old(self).parses,
    {
        let ghost before = *self;
        match self.find_count(rule) {
            Some(i) => {
                proof {
                    before.lemma_count_entry(rule@, i as int);
                }
                let c = self.counts[i].1;
                let key = rule.clone();
                self.counts.set(i, (key, c + 1));
                proof {
                    assert(forall|j: int| 0 <= j < self.counts@.len() ==> self.counts@[j].0@
                        == before.counts@[j].0@);
                    assert(self.is_count_entry(rule@, i as int));
                    self.lemma_count_entry(rule@, i as int);
                    self.lemma_same_other_counts(before, rule@);
                }
            },
            None => {
                let key = rule.clone();
                self.counts.push((key, 1));
                proof {
                    assert(forall|j: int| 0 <= j < before.counts@.len() ==> self.counts@[j]
                        == before.counts@[j]);
                    let n = before.counts@.len() as int;
                    assert(self.is_count_entry(rule@, n));
                    self.lemma_count_entry(rule@, n);
                    self.lemma_same_other_counts(before, rule@);
                }
            },
        }
    }

    /// Takes one from the count of `rule`, when it has one.
    fn decrement(&mut self, rule: &Rule)
        requires
            match old(self).count_of(rule@) {
                Some(c) => c > 0,
                None => true,
            },
        ensures
            final(self).count_of(rule@) == match old(self).count_of(rule@) {
                Some(c) => Some((c - 1) as nat),
                None => None,
            },
            forall|r: RuleView| r != rule@ ==> final(self).count_of(r) == old(self).count_of(r),
            final(self).grammar == old(self).grammar,
            old(self).counts_distinct() ==> final(self).counts_distinct(),
            final(self).parses == old(self).parses,
    {
        let ghost before = *self;
        match self.find_count(rule) {
            Some(i) => {
                proof {
                    before.lemma_count_entry(rule@, i as int);
                }
                let c = self.counts[i].1;
                let key = rule.clone();
                self.counts.set(i, (key, c - 1));
                proof {
                    assert(forall|j: int| 0 <= j < self.counts@.len() ==> self.counts@[j].0@
                        == before.counts@[j].0@);
                    assert(self.is_count_entry(rule@, i as int));
                    self.lemma_count_entry(rule@, i as int);
                    self.lemma_same_other_counts(before, rule@);
                }
            },
            None => {},
        }
    }

    /// Changing or appending the entry of `rule` leaves the counts of other rules alone.
    proof fn lemma_same_other_counts(self, before: Self, rule: RuleView)
        requires
            before.counts@.len() <= self.counts@.len() <= before.counts@.len() + 1,
            forall|j: int| 0 <= j < self.counts@.len() ==> (self.counts@[j].0@ == rule) == (j
                >= before.counts@.len() || before.counts@[j].0@ == rule),
            forall|j: int|
                0 <= j < before.counts@.len() && before.counts@[j].0@ != rule ==> self.counts@[j]
                    == before.counts@[j],
        ensures
            forall|r: RuleView| r != rule ==> self.count_of(r) == before.count_of(r),
    {
        assert forall|r: RuleView| r != rule implies self.count_of(r) == before.count_of(r) by {
            if exists|k: int| before.is_count_entry(r, k) {
                let k = choose|k: int| before.is_count_entry(r, k);
                before.lemma_count_entry(r, k);
                assert forall|j: int| 0 <= j < k implies self.counts@[j].0@ != r by {
                    if before.counts@[j].0@ != rule {
                        assert(self.counts@[j] == before.counts@[j]);
                    }
                }
                assert(self.is_count_entry(r, k));
                self.lemma_count_entry(r, k);
            } else {
                assert forall|k: int| !self.is_count_entry(r, k) by {
                    if self.is_count_entry(r, k) {
                        assert(k < before.counts@.len());
                        assert(before.counts@[k].0@ != rule);
                        assert forall|j: int| 0 <= j < k implies before.counts@[j].0@ != r by {
                            if before.counts@[j].0@ != rule {
                                assert(self.counts@[j] == before.counts@[j]);
                            }
                        }
                        assert(before.is_count_entry(r, k));
                    }
                }
            }
        }
    }
}

/// A rule's count, zero when it has none.
pub open spec fn or_zero(c: Option<nat>) -> nat {
    match c {
        Some(n) => n,
        None => 0,
    }
}

proof fn lemma_occurrences_push(rules: Seq<RuleView>, x: RuleView, r: RuleView)
    ensures
        occurrences(rules.push(x), r) == occurrences(rules, r) + if x == r {
            1nat
        } else {
            0nat
        },
{
    assert(rules.push(x).drop_last() =~= rules);
}

proof fn lemma_rule_views_take(rules: Seq<Rule>, i: int)
    requires
        0 <= i < rules.len(),
    ensures
        rule_views(rules.take(i + 1)) == rule_views(rules.take(i)).push(rules[i]@),
{
    assert(rule_views(rules.take(i + 1)) =~= rule_views(rules.take(i)).push(rules[i]@));
}

proof fn lemma_parse_occurrences_prefix(parses: Seq<ParseTree>, i: int, r: RuleView)
    requires
        0 <= i <= parses.len(),
    ensures
        parse_occurrences(parses.take(i), r) <= parse_occurrences(parses, r),
        i < parses.len() ==> parse_occurrences(parses.take(i + 1), r) == parse_occurrences(
            parses.take(i),
            r,
        ) + occurrences(rule_views(parses[i].rules_used@), r),
    decreases parses.len(),
{
    if i < parses.len() {
        assert(parses.take(i + 1).drop_last() =~= parses.take(i));
        assert(parses.take(i + 1).last() == parses[i]);
        lemma_parse_occurrences_prefix(parses.drop_last(), i, r);
        assert(parses.drop_last().take(i) =~= parses.take(i));
    } else {
        assert(parses.take(i) =~= parses);
    }
}

/// Replacing one parse changes how often a rule is used by what the old
/// parse used and the new one uses.
proof fn lemma_parse_occurrences_update(parses: Seq<ParseTree>, i: int, p: ParseTree, r: RuleView)
    requires
        0 <= i < parses.len(),
    ensures
        parse_occurrences(parses.update(i, p), r) + occurrences(
            rule_views(parses[i].rules_used@),
            r,
        ) == parse_occurrences(parses, r) + occurrences(rule_views(p.rules_used@), r),
    decreases parses.len(),
{
    let u = parses.update(i, p);
    if i == parses.len() - 1 {
        assert(u.drop_last() =~= parses.drop_last());
    } else {
        lemma_parse_occurrences_update(parses.drop_last(), i, p, r);
        assert(u.drop_last() =~= parses.drop_last().update(i, p));
    }
}

/// The start symbol's name.
pub open spec fn start_name() -> Seq<char> {
    seq!['S']
}

/// A rule that the sampler may pick for a sentence: for one token, a rule
/// from the start symbol to that token; for two tokens, a rule from the
/// start symbol to any two terminals.
pub open spec fn fits_sentence(r: RuleView, tokens: Seq<Seq<char>>) -> bool {
    ||| tokens.len() == 1 && r.lhs == start_name() && r.rhs == seq![SymbolName::T(tokens[0])]
    ||| tokens.len() == 2 && r.lhs == start_name() && r.rhs.len() == 2 && r.rhs[0] is T
        && r.rhs[1] is T
}

/// The index of the first rule that fits the sentence.
pub open spec fn is_first_fit(rules: Seq<RuleView>, tokens: Seq<Seq<char>>, i: int) -> bool {
    &&& 0 <= i < rules.len()
    &&& fits_sentence(rules[i], tokens)
    &&& forall|j: int| 0 <= j < i ==> !fits_sentence(#[trigger] rules[j], tokens)
}

/// Some rule fits the sentence.
pub open spec fn can_sample(rules: Seq<RuleView>, tokens: Seq<Seq<char>>) -> bool {
    exists|i: int| 0 <= i < rules.len() && fits_sentence(#[trigger] rules[i], tokens)
}

/// The rule the sampler picks for a sentence: the first that fits.
pub open spec fn sampled_rule(rules: Seq<RuleView>, tokens: Seq<Seq<char>>) -> RuleView {
    rules[choose|i: int| is_first_fit(rules, tokens, i)]
}

/// The tokens of a sentence, as characters.
pub open spec fn token_views(tokens: Seq<String>) -> Seq<Seq<char>> {
    tokens.map_values(|t: String| t@)
}

proof fn lemma_first_fit_exists(rules: Seq<RuleView>, tokens: Seq<Seq<char>>, i: int)
    requires
        0 <= i < rules.len(),
        fits_sentence(rules[i], tokens),
    ensures
        exists|k: int| is_first_fit(rules, tokens, k),
    decreases i,
{
    if exists|j: int| 0 <= j < i && fits_sentence(#[trigger] rules[j], tokens) {
        let j = choose|j: int| 0 <= j < i && fits_sentence(#[trigger] rules[j], tokens);
        lemma_first_fit_exists(rules, tokens, j);
    } else {
        assert(is_first_fit(rules, tokens, i));
    }
}

proof fn lemma_first_fit_unique(rules: Seq<RuleView>, tokens: Seq<Seq<char>>, i: int, k: int)
    requires
        is_first_fit(rules, tokens, i),
        is_first_fit(rules, tokens, k),
    ensures
        i == k,
{
    if i < k {
        assert(!fits_sentence(rules[i], tokens));
    } else if k < i {
        assert(!fits_sentence(rules[k], tokens));
    }
}

/// The sampler's choice for a sentence. It can choose exactly when the
/// grammar has a rule `S -> t` for a one-token sentence `[t]`, or a rule from
/// `S` to two terminals for a two-token sentence; it then chooses the first
/// such rule of the grammar, so the chosen rule rewrites `S`, to the token
/// itself for one token and to two terminals for two.
pub proof fn lemma_sampled_rule(rules: Seq<RuleView>, tokens: Seq<Seq<char>>)
    ensures
        can_sample(rules, tokens) <==> (tokens.len() == 1 && exists|i: int|
            0 <= i < rules.len() && (#[trigger] rules[i]).lhs == seq!['S'] && rules[i].rhs == seq![
                SymbolName::T(tokens[0]),
            ]) || (tokens.len() == 2 && exists|i: int|
            0 <= i < rules.len() && (#[trigger] rules[i]).lhs == seq!['S'] && rules[i].rhs.len() == 2
                && rules[i].rhs[0] is T && rules[i].rhs[1] is T),
        can_sample(rules, tokens) ==> {
            let r = sampled_rule(rules, tokens);
            &&& r.lhs == seq!['S']
            &&& tokens.len() == 1 ==> r.rhs == seq![SymbolName::T(tokens[0])]
            &&& tokens.len() == 2 ==> r.rhs.len() == 2 && r.rhs[0] is T && r.rhs[1] is T
            &&& tokens.len() == 1 || tokens.len() == 2
            &&& exists|k: int|
                0 <= k < rules.len() && rules[k] == r && forall|j: int|
                    0 <= j < k ==> !({
                        ||| tokens.len() == 1 && (#[trigger] rules[j]).lhs == seq!['S']
                            && rules[j].rhs == seq![SymbolName::T(tokens[0])]
                        ||| tokens.len() == 2 && rules[j].lhs == seq!['S'] && rules[j].rhs.len()
                            == 2 && rules[j].rhs[0] is T && rules[j].rhs[1] is T
                    })
        },
{
    if can_sample(rules, tokens) {
        let i = choose|i: int| 0 <= i < rules.len() && fits_sentence(#[trigger] rules[i], tokens);
        lemma_first_fit_exists(rules, tokens, i);
        let k = choose|k: int| is_first_fit(rules, tokens, k);
        assert(is_first_fit(rules, tokens, k));
        assert(sampled_rule(rules, tokens) == rules[k]);
    }
}

fn clone_rules(rules: &Vec<Rule>) -> (r: Vec<Rule>)
    ensures
        rule_views(r@) == rule_views(rules@),
{
    let mut out: Vec<Rule> = Vec::new();
    let n = rules.len();
    let mut i: usize = 0;
    while i < n
        invariant
            n == rules@.len(),
            i <= n,
            rule_views(out@) == rule_views(rules@.take(i as int)),
        decreases n - i,
    {
        let ghost before = out@;
        out.push(rules[i].clone());
        proof {
            assert(rule_views(out@) =~= rule_views(before).push(rules@[i as int]@));
            lemma_rule_views_take(rules@, i as int);
        }
        i = i + 1;
    }
    proof {
        assert(rules@.take(n as int) =~= rules@);
    }
    out
}

fn clone_tokens(tokens: &Vec<String>) -> (r: Vec<String>)
    ensures
        token_views(r@) == token_views(tokens@),
{
    let mut out: Vec<String> = Vec::new();
    let n = tokens.len();
    let mut i: usize = 0;
    while i < n
        invariant
            n == tokens@.len(),
            i <= n,
            token_views(out@) == token_views(tokens@.take(i as int)),
        decreases n - i,
    {
        let ghost before = out@;
        out.push(tokens[i].clone());
        proof {
            assert(token_views(out@) =~= token_views(before).push(tokens@[i as int]@));
            assert(token_views(tokens@.take(i + 1)) =~= token_views(tokens@.take(i as int)).push(
                tokens@[i as int]@,
            ));
        }
        i = i + 1;
    }
    proof {
        assert(tokens@.take(n as int) =~= tokens@);
    }
    out
}

/// Whether the rule fits the sentence, as `fits_sentence` says.
fn fits(rule: &Rule, tokens: &Vec<String>, start: &String) -> (r: bool)
    requires
        start@ == start_name(),
    ensures
        r == fits_sentence(rule@, token_views(tokens@)),
{
    if rule.lhs != *start {
        return false;
    }
    if tokens.len() == 1 {
        if rule.rhs.len() != 1 {
            proof {
                assert(rule@.rhs.len() != 1);
            }
            return false;
        }
        let r = match &rule.rhs[0] {
            Symbol::T(t) => *t == tokens[0],
            Symbol::N(_) => false,
        };
        proof {
            if r {
                assert(rule@.rhs =~= seq![SymbolName::T(token_views(tokens@)[0])]);
            } else {
                assert(rule@.rhs[0] != SymbolName::T(token_views(tokens@)[0]));
            }
        }
        r
    } else if tokens.len() == 2 {
        if rule.rhs.len() != 2 {
            proof {
                assert(rule@.rhs.len() != 2);
            }
            return false;
        }
        let first = match &rule.rhs[0] {
            Symbol::T(_) => true,
            Symbol::N(_) => false,
        };
        let second = match &rule.rhs[1] {
            Symbol::T(_) => true,
            Symbol::N(_) => false,
        };
        proof {
            assert(first == (rule@.rhs[0] is T));
            assert(second == (rule@.rhs[1] is T));
        }
        first && second
    } else {
        false
    }
}

impl ModelState {
    /// Adds how often each rule occurs in `rules` to its count; a rule with
    /// no count gets one when it occurs.
    fn increment_counts(&mut self, rules: &Vec<Rule>)
        requires
            forall|r: RuleView|
                or_zero(#[trigger] old(self).count_of(r)) + occurrences(rule_views(rules@), r)
                    <= usize::MAX,
        ensures
            forall|r: RuleView|
                #[trigger] final(self).count_of(r) == if old(self).count_of(r) is Some || occurrences(
                    rule_views(rules@),
                    r,
                ) > 0 {
                    Some(or_zero(old(self).count_of(r)) + occurrences(rule_views(rules@), r))
                } else {
                    None
                },
            final(self).grammar == old(self).grammar,
            old(self).counts_distinct() ==> final(self).counts_distinct(),
            final(self).parses == old(self).parses,
    {
        let ghost before = *self;
        let n = rules.len();
        let mut i: usize = 0;
        while i < n
            invariant
                n == rules@.len(),
                i <= n,
                self.grammar == before.grammar,
                before.counts_distinct() ==> self.counts_distinct(),
                self.parses == before.parses,
                forall|r: RuleView|
                    or_zero(#[trigger] before.count_of(r)) + occurrences(rule_views(rules@), r)
                        <= usize::MAX,
                forall|r: RuleView|
                    #[trigger] self.count_of(r) == if before.count_of(r) is Some || occurrences(
                        rule_views(rules@.take(i as int)),
                        r,
                    ) > 0 {
                        Some(
                            or_zero(before.count_of(r)) + occurrences(
                                rule_views(rules@.take(i as int)),
                                r,
                            ),
                        )
                    } else {
                        None
                    },
            decreases n - i,
        {
            let ghost mid = *self;
            proof {
                lemma_rule_views_take(rules@, i as int);
                assert forall|r: RuleView|
                    occurrences(rule_views(rules@.take(i + 1)), r) <= occurrences(
                        rule_views(rules@),
                        r,
                    ) by {
                    lemma_occurrences_prefix(rule_views(rules@), i + 1, r);
                    assert(rule_views(rules@).take(i + 1) =~= rule_views(rules@.take(i + 1)));
                }
                let x = rules@[i as int]@;
                lemma_occurrences_push(rule_views(rules@.take(i as int)), x, x);
            }
            self.increment(&rules[i]);
            proof {
                assert forall|r: RuleView|
                    #[trigger] self.count_of(r) == if before.count_of(r) is Some || occurrences(
                        rule_views(rules@.take(i + 1)),
                        r,
                    ) > 0 {
                        Some(
                            or_zero(before.count_of(r)) + occurrences(
                                rule_views(rules@.take(i + 1)),
                                r,
                            ),
                        )
                    } else {
                        None
                    } by {
                    lemma_occurrences_push(
                        rule_views(rules@.take(i as int)),
                        rules@[i as int]@,
                        r,
                    );
                    assert(mid.count_of(r) == if before.count_of(r) is Some || occurrences(
                        rule_views(rules@.take(i as int)),
                        r,
                    ) > 0 {
                        Some(
                            or_zero(before.count_of(r)) + occurrences(
                                rule_views(rules@.take(i as int)),
                                r,
                            ),
                        )
                    } else {
                        None
                    });
                }
            }
            i = i + 1;
        }
        proof {
            assert(rules@.take(n as int) =~= rules@);
        }
    }

    /// Takes how often each rule occurs in `rules` from its count, for the
    /// rules that have a count.
    fn decrement_counts(&mut self, rules: &Vec<Rule>)
        requires
            forall|r: RuleView|
                #[trigger] old(self).count_of(r) is Some ==> occurrences(rule_views(rules@), r)
                    <= old(self).count_of(r).unwrap(),
        ensures
            forall|r: RuleView|
                #[trigger] final(self).count_of(r) == match old(self).count_of(r) {
                    Some(c) => Some((c - occurrences(rule_views(rules@), r)) as nat),
                    None => None,
                },
            final(self).grammar == old(self).grammar,
            old(self).counts_distinct() ==> final(self).counts_distinct(),
            final(self).parses == old(self).parses,
    {
        let ghost before = *self;
        let n = rules.len();
        let mut i: usize = 0;
        while i < n
            invariant
                n == rules@.len(),
                i <= n,
                self.grammar == before.grammar,
                before.counts_distinct() ==> self.counts_distinct(),
                self.parses == before.parses,
                forall|r: RuleView|
                    #[trigger] before.count_of(r) is Some ==> occurrences(rule_views(rules@), r)
                        <= before.count_of(r).unwrap(),
                forall|r: RuleView|
                    #[trigger] self.count_of(r) == match before.count_of(r) {
                        Some(c) => Some((c - occurrences(rule_views(rules@.take(i as int)), r)) as nat),
                        None => None,
                    },
            decreases n - i,
        {
            let ghost mid = *self;
            proof {
                lemma_rule_views_take(rules@, i as int);
                let x = rules@[i as int]@;
                lemma_occurrences_push(rule_views(rules@.take(i as int)), x, x);
                lemma_occurrences_prefix(rule_views(rules@), i + 1, x);
                assert(rule_views(rules@).take(i + 1) =~= rule_views(rules@.take(i + 1)));
                assert(before.count_of(x) is Some ==> before.count_of(x).unwrap() >= occurrences(
                    rule_views(rules@),
                    x,
                ));
            }
            self.decrement(&rules[i]);
            proof {
                assert forall|r: RuleView|
                    #[trigger] self.count_of(r) == match before.count_of(r) {
                        Some(c) => Some((c - occurrences(rule_views(rules@.take(i + 1)), r)) as nat),
                        None => None,
                    } by {
                    lemma_occurrences_push(
                        rule_views(rules@.take(i as int)),
                        rules@[i as int]@,
                        r,
                    );
                    lemma_occurrences_prefix(rule_views(rules@), i + 1, r);
                    assert(rule_views(rules@).take(i + 1) =~= rule_views(rules@.take(i + 1)));
                    assert(mid.count_of(r) == match before.count_of(r) {
                        Some(c) => Some((c - occurrences(rule_views(rules@.take(i as int)), r)) as nat),
                        None => None,
                    });
                }
            }
            i = i + 1;
        }
        proof {
            assert(rules@.take(n as int) =~= rules@);
        }
    }
}

proof fn lemma_occurrences_prefix(rules: Seq<RuleView>, i: int, r: RuleView)
    requires
        0 <= i <= rules.len(),
    ensures
        occurrences(rules.take(i), r) <= occurrences(rules, r),
    decreases rules.len(),
{
    if i < rules.len() {
        lemma_occurrences_prefix(rules.drop_last(), i, r);
        assert(rules.drop_last().take(i) =~= rules.take(i));
    } else {
        assert(rules.take(i) =~= rules);
    }
}

impl ModelState {
    /// Starts the sampler from the given parses: each rule used by them is
    /// counted as often as they use it; the other rules have no count.
    pub fn new(grammar: Grammar, parses: Vec<ParseTree>) -> (r: Self)
        requires
            forall|x: RuleView| #[trigger] parse_occurrences(parses@, x) <= usize::MAX,
        ensures
            r.grammar == grammar,
            r.parses == parses,
            r.counts_distinct(),
            r.counts_match(),
            forall|x: RuleView|
                #[trigger] r.count_of(x) == if parse_occurrences(parses@, x) > 0 {
                    Some(parse_occurrences(parses@, x))
                } else {
                    None
                },
    {
        let mut state = ModelState { grammar, parses: Vec::new(), counts: Vec::new() };
        proof {
            assert forall|x: RuleView| state.count_of(x) is None by {
                assert forall|k: int| !state.is_count_entry(x, k) by {}
            }
        }
        let n = parses.len();
        let mut i: usize = 0;
        while i < n
            invariant
                n == parses@.len(),
                i <= n,
                state.grammar == grammar,
                state.counts_distinct(),
                state.parses@.len() == 0,
                forall|x: RuleView| #[trigger] parse_occurrences(parses@, x) <= usize::MAX,
                forall|x: RuleView|
                    #[trigger] state.count_of(x) == if parse_occurrences(parses@.take(i as int), x)
                        > 0 {
                        Some(parse_occurrences(parses@.take(i as int), x))
                    } else {
                        None
                    },
            decreases n - i,
        {
            proof {
                assert forall|x: RuleView|
                    or_zero(#[trigger] state.count_of(x)) + occurrences(
                        rule_views(parses@[i as int].rules_used@),
                        x,
                    ) <= usize::MAX by {
                    lemma_parse_occurrences_prefix(parses@, i as int, x);
                    lemma_parse_occurrences_prefix(parses@, i + 1, x);
                }
            }
            let ghost mid = state;
            state.increment_counts(&parses[i].rules_used);
            proof {
                assert forall|x: RuleView|
                    #[trigger] state.count_of(x) == if parse_occurrences(parses@.take(i + 1), x) > 0 {
                        Some(parse_occurrences(parses@.take(i + 1), x))
                    } else {
                        None
                    } by {
                    lemma_parse_occurrences_prefix(parses@, i as int, x);
                    assert(mid.count_of(x) == if parse_occurrences(parses@.take(i as int), x) > 0 {
                        Some(parse_occurrences(parses@.take(i as int), x))
                    } else {
                        None
                    });
                }
            }
            i = i + 1;
        }
        proof {
            assert(parses@.take(n as int) =~= parses@);
        }
        let r = ModelState { grammar: state.grammar, parses, counts: state.counts };
        proof {
            assert forall|x: RuleView| r.count_of(x) == state.count_of(x) by {
                assert forall|k: int| r.is_count_entry(x, k) == state.is_count_entry(x, k) by {}
            }
        }
        r
    }

    /// A parse for a sentence of one or two tokens: the start symbol, with the
    /// first rule that fits the sentence.
    fn sample_parse_for_sentence(&self, tokens: &Vec<String>) -> (r: ParseTree)
        requires
            can_sample(rule_views(self.grammar.rules@), token_views(tokens@)),
        ensures
            r.root@ == start_name(),
            rule_views(r.rules_used@) == seq![
                sampled_rule(rule_views(self.grammar.rules@), token_views(tokens@)),
            ],
            token_views(r.yield_tokens@) == token_views(tokens@),
    {
        let start = "S".to_owned();
        proof {
            reveal_strlit("S");
            assert(start@ =~= start_name());
        }
        let ghost rules = rule_views(self.grammar.rules@);
        let ghost ts = token_views(tokens@);
        let n = self.grammar.rules.len();
        let mut i: usize = 0;
        while i < n
            invariant
                n == self.grammar.rules@.len(),
                i <= n,
                rules == rule_views(self.grammar.rules@),
                ts == token_views(tokens@),
                start@ == start_name(),
                can_sample(rules, ts),
                forall|j: int| 0 <= j < i ==> !fits_sentence(#[trigger] rules[j], ts),
            decreases n - i,
        {
            if fits(&self.grammar.rules[i], tokens, &start) {
                proof {
                    assert(is_first_fit(rules, ts, i as int));
                    lemma_first_fit_exists(rules, ts, i as int);
                    let k = choose|k: int| is_first_fit(rules, ts, k);
                    lemma_first_fit_unique(rules, ts, i as int, k);
                }
                let mut rules_used: Vec<Rule> = Vec::new();
                rules_used.push(self.grammar.rules[i].clone());
                let r = ParseTree { root: start, rules_used, yield_tokens: clone_tokens(tokens) };
                proof {
                    assert(rule_views(r.rules_used@) =~= seq![rules[i as int]]);
                }
                return r;
            }
            i = i + 1;
        }
        proof {
            let j = choose|j: int| 0 <= j < rules.len() && fits_sentence(#[trigger] rules[j], ts);
            assert(!fits_sentence(rules[j], ts));
        }
        unreached()
    }
}

proof fn lemma_parse_occurrences_at(parses: Seq<ParseTree>, i: int, r: RuleView)
    requires
        0 <= i < parses.len(),
    ensures
        occurrences(rule_views(parses[i].rules_used@), r) <= parse_occurrences(parses, r),
    decreases parses.len(),
{
    if i < parses.len() - 1 {
        lemma_parse_occurrences_at(parses.drop_last(), i, r);
    }
}

proof fn lemma_occurrences_single(y: RuleView, r: RuleView)
    ensures
        occurrences(seq![y], r) == if y == r {
            1nat
        } else {
            0nat
        },
{
    assert(seq![y].drop_last() =~= Seq::<RuleView>::empty());
    assert(occurrences(Seq::<RuleView>::empty(), r) == 0);
}

/// How many of the first `k` parses are resampled to the rule `r`.
pub open spec fn resampled_uses(
    rules: Seq<RuleView>,
    parses: Seq<ParseTree>,
    k: int,
    r: RuleView,
) -> nat
    decreases k,
{
    if k <= 0 {
        0
    } else {
        resampled_uses(rules, parses, k - 1, r) + if sampled_rule(
            rules,
            token_views(parses[k - 1].yield_tokens@),
        ) == r {
            1nat
        } else {
            0nat
        }
    }
}

/// The count of `r` at the end of step `i` of a sweep over `parses`: the
/// parses up to `i` hold their resampled rule, those after `i` their old rules.
pub open spec fn sweep_count(
    rules: Seq<RuleView>,
    parses: Seq<ParseTree>,
    i: int,
    r: RuleView,
) -> nat {
    resampled_uses(rules, parses, i + 1, r) + parse_occurrences(
        parses.subrange(i + 1, parses.len() as int),
        r,
    )
}

proof fn lemma_parse_occurrences_append(a: Seq<ParseTree>, b: Seq<ParseTree>, r: RuleView)
    ensures
        parse_occurrences(a + b, r) == parse_occurrences(a, r) + parse_occurrences(b, r),
    decreases b.len(),
{
    if b.len() > 0 {
        assert((a + b).drop_last() =~= a + b.drop_last());
        lemma_parse_occurrences_append(a, b.drop_last(), r);
    } else {
        assert(a + b =~= a);
    }
}

proof fn lemma_parse_occurrences_tail(parses: Seq<ParseTree>, i: int, r: RuleView)
    requires
        0 <= i < parses.len(),
    ensures
        parse_occurrences(parses.subrange(i, parses.len() as int), r) == occurrences(
            rule_views(parses[i].rules_used@),
            r,
        ) + parse_occurrences(parses.subrange(i + 1, parses.len() as int), r),
{
    let n = parses.len() as int;
    let head = seq![parses[i]];
    assert(parses.subrange(i, n) =~= head + parses.subrange(i + 1, n));
    lemma_parse_occurrences_append(head, parses.subrange(i + 1, n), r);
    assert(head.drop_last() =~= Seq::<ParseTree>::empty());
    assert(parse_occurrences(Seq::<ParseTree>::empty(), r) == 0);
    assert(parse_occurrences(head, r) == occurrences(rule_views(parses[i].rules_used@), r));
}

impl ModelState {
    /// One sweep of the sampler: each parse in turn gives back the counts of
    /// its rules and is replaced by a parse sampled for its tokens, whose
    /// rules are counted in. Each count has to fit in a `usize` at every step
    /// of the sweep (`sweep_count`); past that the counter would overflow.
    pub fn resample_parses(&mut self)
        requires
            ready_to_sweep(*old(self)),
        ensures
            resampled(*old(self), *final(self)),
    {
        let ghost before = *self;
        let n = self.parses.len();
        proof {
            assert(before.parses@.subrange(0, n as int) =~= before.parses@);
        }
        let mut i: usize = 0;
        while i < n
            invariant
                n == self.parses@.len(),
                n == before.parses@.len(),
                i <= n,
                self.grammar == before.grammar,
                before.counts_distinct() ==> self.counts_distinct(),
                self.counts_match(),
                forall|j: int| i <= j < n ==> self.parses@[j] == before.parses@[j],
                forall|j: int|
                    0 <= j < before.parses@.len() ==> can_sample(
                        rule_views(before.grammar.rules@),
                        token_views(#[trigger] before.parses@[j].yield_tokens@),
                    ),
                forall|k: int, x: RuleView|
                    0 <= k < n ==> #[trigger] sweep_count(
                        rule_views(before.grammar.rules@),
                        before.parses@,
                        k,
                        x,
                    ) <= usize::MAX,
                forall|x: RuleView|
                    #[trigger] parse_occurrences(self.parses@, x) == resampled_uses(
                        rule_views(before.grammar.rules@),
                        before.parses@,
                        i as int,
                        x,
                    ) + parse_occurrences(before.parses@.subrange(i as int, n as int), x),
                forall|x: RuleView|
                    #[trigger] self.count_of(x) is Some <==> (before.count_of(x) is Some || exists|
                        j: int,
                    |
                        0 <= j < i && sampled_rule(
                            rule_views(before.grammar.rules@),
                            token_views(#[trigger] before.parses@[j].yield_tokens@),
                        ) == x),
                forall|j: int|
                    0 <= j < i ==> {
                        &&& (#[trigger] self.parses@[j]).root@ == start_name()
                        &&& rule_views(self.parses@[j].rules_used@) == seq![
                            sampled_rule(
                                rule_views(before.grammar.rules@),
                                token_views(before.parses@[j].yield_tokens@),
                            ),
                        ]
                        &&& token_views(self.parses@[j].yield_tokens@) == token_views(
                            before.parses@[j].yield_tokens@,
                        )
                    },
            decreases n - i,
        {
            let ghost ps = self.parses@;
            let old_rules = clone_rules(&self.parses[i].rules_used);
            let tokens = clone_tokens(&self.parses[i].yield_tokens);
            proof {
                assert forall|x: RuleView| #[trigger] self.count_of(x) is Some implies occurrences(
                    rule_views(old_rules@),
                    x,
                ) <= self.count_of(x).unwrap() by {
                    lemma_parse_occurrences_at(ps, i as int, x);
                    assert(parse_occurrences(ps, x) == or_zero(self.count_of(x)));
                }
            }
            let ghost c0 = *self;
            self.decrement_counts(&old_rules);
            let ghost after_decrement = *self;
            proof {
                assert(ps[i as int] == before.parses@[i as int]);
            }
            let new_parse = self.sample_parse_for_sentence(&tokens);
            proof {
                let y = sampled_rule(rule_views(self.grammar.rules@), token_views(tokens@));
                assert forall|x: RuleView|
                    or_zero(#[trigger] self.count_of(x)) + occurrences(
                        rule_views(new_parse.rules_used@),
                        x,
                    ) <= usize::MAX by {
                    lemma_occurrences_single(y, x);
                    lemma_parse_occurrences_tail(before.parses@, i as int, x);
                    assert(parse_occurrences(ps, x) == or_zero(c0.count_of(x)));
                    assert(sweep_count(
                        rule_views(before.grammar.rules@),
                        before.parses@,
                        i as int,
                        x,
                    ) <= usize::MAX);
                }
            }
            self.increment_counts(&new_parse.rules_used);
            let ghost np = new_parse;
            let ghost after_increment = *self;
            self.parses.set(i, new_parse);
            proof {
                assert(self.parses@ == ps.update(i as int, np));
                assert forall|x: RuleView| #[trigger] parse_occurrences(self.parses@, x) == or_zero(
                    self.count_of(x),
                ) by {
                    lemma_parse_occurrences_update(ps, i as int, np, x);
                    lemma_parse_occurrences_at(ps, i as int, x);
                    assert(parse_occurrences(ps, x) == or_zero(c0.count_of(x)));
                    let d = after_decrement.count_of(x);
                    assert(d == match c0.count_of(x) {
                        Some(c) => Some((c - occurrences(rule_views(old_rules@), x)) as nat),
                        None => None,
                    });
                    self.lemma_same_counts(after_increment, x);
                    assert(after_increment.count_of(x) == if d is Some || occurrences(
                        rule_views(np.rules_used@),
                        x,
                    ) > 0 {
                        Some(or_zero(d) + occurrences(rule_views(np.rules_used@), x))
                    } else {
                        None
                    });
                }
                let y = sampled_rule(rule_views(self.grammar.rules@), token_views(tokens@));
                assert(y == sampled_rule(
                    rule_views(before.grammar.rules@),
                    token_views(before.parses@[i as int].yield_tokens@),
                ));
                assert forall|x: RuleView| #[trigger] self.count_of(x) is Some <==> (before.count_of(
                    x,
                ) is Some || exists|j: int|
                    0 <= j < i + 1 && sampled_rule(
                        rule_views(before.grammar.rules@),
                        token_views(#[trigger] before.parses@[j].yield_tokens@),
                    ) == x) by {
                    self.lemma_same_counts(after_increment, x);
                    lemma_occurrences_single(y, x);
                    assert(rule_views(np.rules_used@) == seq![y]);
                    assert(seq![y].drop_last() =~= Seq::<RuleView>::empty());
                    assert(occurrences(Seq::<RuleView>::empty(), x) == 0);
                    assert(occurrences(seq![y], x) == if y == x { 1nat } else { 0nat });
                    assert(after_decrement.count_of(x) is Some == c0.count_of(x) is Some);
                    if y == x {
                        assert(sampled_rule(
                            rule_views(before.grammar.rules@),
                            token_views(before.parses@[i as int].yield_tokens@),
                        ) == x);
                    }
                }
                assert forall|x: RuleView| #[trigger] parse_occurrences(self.parses@, x)
                    == resampled_uses(rule_views(before.grammar.rules@), before.parses@, i + 1, x)
                    + parse_occurrences(before.parses@.subrange(i + 1, n as int), x) by {
                    lemma_parse_occurrences_update(ps, i as int, np, x);
                    lemma_parse_occurrences_tail(before.parses@, i as int, x);
                    lemma_occurrences_single(y, x);
                }
            }
            i = i + 1;
        }
    }
}


/// `after` is what a sweep of the sampler makes of `before`: the counts still
/// match the parses, the grammar and the sentences stay, each parse now uses
/// just the rule sampled for its sentence, and a rule has a count when it had
/// one before or some sentence samples it.
pub open spec fn resampled(before: ModelState, after: ModelState) -> bool {
    &&& before.counts_distinct() ==> after.counts_distinct()
    &&& after.counts_match()
    &&& after.grammar == before.grammar
    &&& after.parses@.len() == before.parses@.len()
    &&& forall|x: RuleView|
        #[trigger] after.count_of(x) is Some <==> (before.count_of(x) is Some || exists|i: int|
            0 <= i < before.parses@.len() && sampled_rule(
                rule_views(before.grammar.rules@),
                token_views(#[trigger] before.parses@[i].yield_tokens@),
            ) == x)
    &&& forall|i: int|
        0 <= i < after.parses@.len() ==> {
            &&& (#[trigger] after.parses@[i]).root@ == start_name()
            &&& rule_views(after.parses@[i].rules_used@) == seq![
                sampled_rule(
                    rule_views(before.grammar.rules@),
                    token_views(before.parses@[i].yield_tokens@),
                ),
            ]
            &&& token_views(after.parses@[i].yield_tokens@) == token_views(
                before.parses@[i].yield_tokens@,
            )
        }
}

/// What the sampler needs of a state for a sweep: the counts match the
/// parses, a rule fits every sentence, and every count fits in a `usize`
/// at every step of the sweep.
pub open spec fn ready_to_sweep(s: ModelState) -> bool {
    &&& s.counts_match()
    &&& forall|i: int|
        0 <= i < s.parses@.len() ==> can_sample(
            rule_views(s.grammar.rules@),
            token_views(#[trigger] s.parses@[i].yield_tokens@),
        )
    &&& forall|i: int, x: RuleView|
        0 <= i < s.parses@.len() ==> #[trigger] sweep_count(
            rule_views(s.grammar.rules@),
            s.parses@,
            i,
            x,
        ) <= usize::MAX
}

proof fn lemma_resampled_uses_bound(
    rules: Seq<RuleView>,
    parses: Seq<ParseTree>,
    k: int,
    r: RuleView,
)
    requires
        k >= 0,
    ensures
        resampled_uses(rules, parses, k, r) <= k,
    decreases k,
{
    if k > 0 {
        lemma_resampled_uses_bound(rules, parses, k - 1, r);
    }
}

proof fn lemma_single_rule_occurrences(parses: Seq<ParseTree>, r: RuleView)
    requires
        forall|i: int| 0 <= i < parses.len() ==> (#[trigger] parses[i]).rules_used@.len() == 1,
    ensures
        parse_occurrences(parses, r) <= parses.len(),
    decreases parses.len(),
{
    if parses.len() > 0 {
        let p = parses.last();
        assert(parses[parses.len() - 1] == p);
        lemma_single_rule_occurrences(parses.drop_last(), r);
        let rv = rule_views(p.rules_used@);
        assert(rv =~= seq![rv[0]]);
        lemma_occurrences_single(rv[0], r);
    }
}

/// After a sweep from a state ready for it, every parse uses one rule, which
/// rewrites `S`: to the sentence's token when it has one, to two terminals
/// when it has two.
pub proof fn lemma_resampled_rules(before: ModelState, after: ModelState)
    requires
        ready_to_sweep(before),
        resampled(before, after),
    ensures
        forall|i: int|
            0 <= i < after.parses@.len() ==> {
                let rs = rule_views((#[trigger] after.parses@[i]).rules_used@);
                let ts = token_views(after.parses@[i].yield_tokens@);
                &&& rs.len() == 1
                &&& rs[0].lhs == seq!['S']
                &&& ts.len() == 1 ==> rs[0].rhs == seq![SymbolName::T(ts[0])]
                &&& ts.len() == 2 ==> rs[0].rhs.len() == 2 && rs[0].rhs[0] is T && rs[0].rhs[1] is T
            },
{
    assert forall|i: int| 0 <= i < after.parses@.len() implies {
        let rs = rule_views((#[trigger] after.parses@[i]).rules_used@);
        let ts = token_views(after.parses@[i].yield_tokens@);
        &&& rs.len() == 1
        &&& rs[0].lhs == seq!['S']
        &&& ts.len() == 1 ==> rs[0].rhs == seq![SymbolName::T(ts[0])]
        &&& ts.len() == 2 ==> rs[0].rhs.len() == 2 && rs[0].rhs[0] is T && rs[0].rhs[1] is T
    } by {
        let rules = rule_views(before.grammar.rules@);
        let ts0 = token_views(before.parses@[i].yield_tokens@);
        assert(can_sample(rules, ts0));
        lemma_sampled_rule(rules, ts0);
    }
}

/// Sweeping twice is sweeping once: the second sweep resamples every
/// sentence to the rule it already has.
pub proof fn lemma_resampled_twice(s0: ModelState, s1: ModelState, s2: ModelState)
    requires
        resampled(s0, s1),
        resampled(s1, s2),
    ensures
        resampled(s0, s2),
{
    assert forall|i: int| 0 <= i < s1.parses@.len() implies sampled_rule(
        rule_views(s1.grammar.rules@),
        token_views(#[trigger] s1.parses@[i].yield_tokens@),
    ) == sampled_rule(
        rule_views(s0.grammar.rules@),
        token_views(s0.parses@[i].yield_tokens@),
    ) by {
        assert(token_views(s1.parses@[i].yield_tokens@) == token_views(
            s0.parses@[i].yield_tokens@,
        ));
    }
    assert forall|x: RuleView| #[trigger] s2.count_of(x) is Some <==> (s0.count_of(x) is Some
        || exists|i: int|
        0 <= i < s0.parses@.len() && sampled_rule(
            rule_views(s0.grammar.rules@),
            token_views(#[trigger] s0.parses@[i].yield_tokens@),
        ) == x) by {
        if exists|i: int|
            0 <= i < s1.parses@.len() && sampled_rule(
                rule_views(s1.grammar.rules@),
                token_views(#[trigger] s1.parses@[i].yield_tokens@),
            ) == x {
            let i = choose|i: int|
                0 <= i < s1.parses@.len() && sampled_rule(
                    rule_views(s1.grammar.rules@),
                    token_views(#[trigger] s1.parses@[i].yield_tokens@),
                ) == x;
            assert(sampled_rule(
                rule_views(s0.grammar.rules@),
                token_views(s0.parses@[i].yield_tokens@),
            ) == x);
        }
    }
    assert forall|i: int| 0 <= i < s2.parses@.len() implies {
        &&& (#[trigger] s2.parses@[i]).root@ == start_name()
        &&& rule_views(s2.parses@[i].rules_used@) == seq![
            sampled_rule(
                rule_views(s0.grammar.rules@),
                token_views(s0.parses@[i].yield_tokens@),
            ),
        ]
        &&& token_views(s2.parses@[i].yield_tokens@) == token_views(
            s0.parses@[i].yield_tokens@,
        )
    } by {
        assert(token_views(s1.parses@[i].yield_tokens@) == token_views(
            s0.parses@[i].yield_tokens@,
        ));
    }
}

/// A state that a sweep made is ready for another sweep.
pub proof fn lemma_resampled_ready(s0: ModelState, s1: ModelState)
    requires
        ready_to_sweep(s0),
        resampled(s0, s1),
    ensures
        ready_to_sweep(s1),
{
    let n = s1.parses@.len();
    assert(s1.parses.len() == n);
    assert forall|i: int| 0 <= i < n implies can_sample(
        rule_views(s1.grammar.rules@),
        token_views(#[trigger] s1.parses@[i].yield_tokens@),
    ) by {
        assert(token_views(s1.parses@[i].yield_tokens@) == token_views(
            s0.parses@[i].yield_tokens@,
        ));
    }
    assert forall|i: int, x: RuleView| 0 <= i < n implies #[trigger] sweep_count(
        rule_views(s1.grammar.rules@),
        s1.parses@,
        i,
        x,
    ) <= usize::MAX by {
        let tail = s1.parses@.subrange(i + 1, n as int);
        assert forall|j: int| 0 <= j < tail.len() implies (#[trigger] tail[j]).rules_used@.len()
            == 1 by {
            assert(tail[j] == s1.parses@[i + 1 + j]);
            assert(rule_views(s1.parses@[i + 1 + j].rules_used@).len() == 1);
        }
        lemma_single_rule_occurrences(tail, x);
        lemma_resampled_uses_bound(rule_views(s1.grammar.rules@), s1.parses@, i + 1, x);
    }
}

/// Runs `iterations` sweeps of the sampler over `state`.
pub fn induce_pcfg(state: ModelState, iterations: usize) -> (r: ModelState)
    requires
        iterations > 0 ==> ready_to_sweep(state),
    ensures
        iterations == 0 ==> r == state,
        iterations > 0 ==> resampled(state, r),
{
    let mut state = state;
    let ghost first = state;
    let mut k: usize = 0;
    while k < iterations
        invariant
            k <= iterations,
            iterations > 0 ==> ready_to_sweep(state),
            k == 0 ==> state == first,
            k > 0 ==> resampled(first, state),
        decreases iterations - k,
    {
        let ghost prev = state;
        state.resample_parses();
        proof {
            lemma_resampled_ready(prev, state);
            if k > 0 {
                lemma_resampled_twice(first, prev, state);
            }
        }
        k = k + 1;
    }
    state
}

/// How many of `rules` have the left-hand side `lhs`.
pub open spec fn lhs_rules(rules: Seq<RuleView>, lhs: Seq<char>) -> nat
    decreases rules.len(),
{
    if rules.len() == 0 {
        0
    } else {
        lhs_rules(rules.drop_last(), lhs) + if rules.last().lhs == lhs {
            1nat
        } else {
            0nat
        }
    }
}

impl ModelState {
    /// The total count of the rules among `rules` with the left-hand side `lhs`.
    pub open spec fn lhs_total(self, rules: Seq<RuleView>, lhs: Seq<char>) -> nat
        decreases rules.len(),
    {
        if rules.len() == 0 {
            0
        } else {
            self.lhs_total(rules.drop_last(), lhs) + if rules.last().lhs == lhs {
                or_zero(self.count_of(rules.last()))
            } else {
                0
            }
        }
    }

    proof fn lemma_lhs_total_prefix(self, rules: Seq<RuleView>, i: int, lhs: Seq<char>)
        requires
            0 <= i <= rules.len(),
        ensures
            self.lhs_total(rules.take(i), lhs) <= self.lhs_total(rules, lhs),
        decreases rules.len(),
    {
        if i < rules.len() {
            self.lemma_lhs_total_prefix(rules.drop_last(), i, lhs);
            assert(rules.drop_last().take(i) =~= rules.take(i));
        } else {
            assert(rules.take(i) =~= rules);
        }
    }

    /// The counts that the posterior of each grammar rule is made of: for each
    /// rule, in order, its count (zero when it has none), the total count of
    /// the grammar's rules with its left-hand side, and how many of the
    /// grammar's rules have that left-hand side. `None` when a total does
    /// not fit in a `usize`.
    pub fn rule_statistics(&self) -> (r: Option<Vec<(usize, usize, usize)>>)
        ensures
            r is None <==> exists|i: int|
                0 <= i < self.grammar.rules@.len() && self.lhs_total(
                    rule_views(self.grammar.rules@),
                    (#[trigger] self.grammar.rules@[i]).lhs@,
                ) > usize::MAX,
            r matches Some(v) ==> v@.len() == self.grammar.rules@.len(),
            r matches Some(v) ==> forall|i: int|
                0 <= i < v@.len() ==> {
                    let rule = self.grammar.rules@[i]@;
                    &&& (#[trigger] v@[i]).0 == or_zero(self.count_of(rule))
                    &&& v@[i].1 == self.lhs_total(rule_views(self.grammar.rules@), rule.lhs)
                    &&& v@[i].2 == lhs_rules(rule_views(self.grammar.rules@), rule.lhs)
                },
    {
        let ghost rules = rule_views(self.grammar.rules@);
        let n = self.grammar.rules.len();
        let mut out: Vec<(usize, usize, usize)> = Vec::new();
        let mut i: usize = 0;
        while i < n
            invariant
                n == self.grammar.rules@.len(),
                rules == rule_views(self.grammar.rules@),
                i <= n,
                out@.len() == i,
                forall|m: int|
                    0 <= m < i ==> self.lhs_total(
                        rules,
                        (#[trigger] self.grammar.rules@[m]).lhs@,
                    ) <= usize::MAX,
                forall|m: int|
                    0 <= m < i ==> {
                        let rule = self.grammar.rules@[m]@;
                        &&& (#[trigger] out@[m]).0 == or_zero(self.count_of(rule))
                        &&& out@[m].1 == self.lhs_total(rules, rule.lhs)
                        &&& out@[m].2 == lhs_rules(rules, rule.lhs)
                    },
            decreases n - i,
        {
            let rule = &self.grammar.rules[i];
            let ghost lhs = rule@.lhs;
            let c_r = match self.count(rule) {
                Some(c) => c,
                None => 0,
            };
            let mut lhs_total: usize = 0;
            let mut k: usize = 0;
            let mut j: usize = 0;
            while j < n
                invariant
                    n == self.grammar.rules@.len(),
                    rules == rule_views(self.grammar.rules@),
                    j <= n,
                    lhs == self.grammar.rules@[i as int].lhs@,
                    *rule == self.grammar.rules@[i as int],
                    i < n,
                    lhs_total == self.lhs_total(rules.take(j as int), lhs),
                    k == lhs_rules(rules.take(j as int), lhs),
                    k <= j,
                decreases n - j,
            {
                let other = &self.grammar.rules[j];
                proof {
                    assert(rules.take(j + 1).drop_last() =~= rules.take(j as int));
                    assert(rules.take(j + 1).last() == other@);
                    self.lemma_lhs_total_prefix(rules, j + 1, lhs);
                }
                let ghost next = rules.take(j + 1);
                proof {
                    assert(self.lhs_total(next, lhs) == self.lhs_total(next.drop_last(), lhs) + if next.last().lhs == lhs {
                        or_zero(self.count_of(next.last()))
                    } else {
                        0
                    });
                    assert(lhs_rules(next, lhs) == lhs_rules(next.drop_last(), lhs) + if next.last().lhs == lhs {
                        1nat
                    } else {
                        0nat
                    });
                }
                if other.lhs == rule.lhs {
                    let c = match self.count(other) {
                        Some(c) => c,
                        None => 0,
                    };
                    proof {
                        assert(c == or_zero(self.count_of(other@)));
                    }
                    match lhs_total.checked_add(c) {
                        Some(t) => {
                            lhs_total = t;
                        },
                        None => {
                            proof {
                                assert(self.lhs_total(rules, self.grammar.rules@[i as int].lhs@)
                                    > usize::MAX);
                            }
                            return None;
                        },
                    }
                    k = k + 1;
                }
                j = j + 1;
            }
            proof {
                assert(rules.take(n as int) =~= rules);
            }
            out.push((c_r, lhs_total, k));
            i = i + 1;
        }
        Some(out)
    }
}

impl ModelState {
    /// The sum, over the rules among `rules` with the left-hand side `lhs`, of
    /// the numerator `count * b + a` of their posterior for `alpha = a / b`.
    pub open spec fn posterior_numerators(
        self,
        rules: Seq<RuleView>,
        lhs: Seq<char>,
        a: nat,
        b: nat,
    ) -> nat
        decreases rules.len(),
    {
        if rules.len() == 0 {
            0
        } else {
            self.posterior_numerators(rules.drop_last(), lhs, a, b) + if rules.last().lhs == lhs {
                or_zero(self.count_of(rules.last())) * b + a
            } else {
                0
            }
        }
    }

    /// The posterior of a rule is `(count + alpha) / (total + k * alpha)`,
    /// with `count`, `total` and `k` its statistics: for every `alpha = a / b`,
    /// the numerators of the rules that share a left-hand side add up to their
    /// common denominator `total * b + k * a`, so their posteriors sum to one.
    pub proof fn lemma_posteriors_sum_to_one(self, rules: Seq<RuleView>, lhs: Seq<char>, a: nat, b: nat)
        ensures
            self.posterior_numerators(rules, lhs, a, b) == self.lhs_total(rules, lhs) * b + lhs_rules(
                rules,
                lhs,
            ) * a,
        decreases rules.len(),
    {
        if rules.len() > 0 {
            self.lemma_posteriors_sum_to_one(rules.drop_last(), lhs, a, b);
            let t = self.lhs_total(rules.drop_last(), lhs);
            let k = lhs_rules(rules.drop_last(), lhs);
            let c = or_zero(self.count_of(rules.last()));
            let p = self.posterior_numerators(rules.drop_last(), lhs, a, b);
            if rules.last().lhs == lhs {
                assert(self.lhs_total(rules, lhs) == t + c);
                assert(lhs_rules(rules, lhs) == k + 1);
                assert(self.posterior_numerators(rules, lhs, a, b) == p + (c * b + a));
                assert((t + c) * b + (k + 1) * a == t * b + k * a + (c * b + a)) by (nonlinear_arith);
            } else {
                assert(self.lhs_total(rules, lhs) == t);
                assert(lhs_rules(rules, lhs) == k);
                assert(self.posterior_numerators(rules, lhs, a, b) == p);
            }
        } else {
            assert(0 * b + 0 * a == 0) by (nonlinear_arith);
        }
    }
}

impl ModelState {
    /// Whether some rule of the grammar fits every parse's sentence, so that
    /// the sampler can resample every parse.
    pub fn can_sample_all(&self) -> (r: bool)
        ensures
            r == forall|i: int|
                0 <= i < self.parses@.len() ==> can_sample(
                    rule_views(self.grammar.rules@),
                    token_views(#[trigger] self.parses@[i].yield_tokens@),
                ),
    {
        let start = "S".to_owned();
        proof {
            reveal_strlit("S");
            assert(start@ =~= start_name());
        }
        let ghost rules = rule_views(self.grammar.rules@);
        let n = self.parses.len();
        let m = self.grammar.rules.len();
        let mut i: usize = 0;
        while i < n
            invariant
                n == self.parses@.len(),
                m == self.grammar.rules@.len(),
                rules == rule_views(self.grammar.rules@),
                start@ == start_name(),
                i <= n,
                forall|k: int|
                    0 <= k < i ==> can_sample(
                        rules,
                        token_views(#[trigger] self.parses@[k].yield_tokens@),
                    ),
            decreases n - i,
        {
            let tokens = &self.parses[i].yield_tokens;
            let ghost ts = token_views(tokens@);
            let mut found = false;
            let mut j: usize = 0;
            while j < m
                invariant
                    m == self.grammar.rules@.len(),
                    rules == rule_views(self.grammar.rules@),
                    start@ == start_name(),
                    ts == token_views(tokens@),
                    j <= m,
                    found ==> can_sample(rules, ts),
                    !found ==> forall|k: int| 0 <= k < j ==> !fits_sentence(#[trigger] rules[k], ts),
                decreases m - j,
            {
                if !found && fits(&self.grammar.rules[j], tokens, &start) {
                    found = true;
                    proof {
                        assert(fits_sentence(rules[j as int], ts));
                    }
                }
                j = j + 1;
            }
            if !found {
                proof {
                    assert(!can_sample(rules, ts));
                }
                return false;
            }
            i = i + 1;
        }
        true
    }
}

} // verus!
