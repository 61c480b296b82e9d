use binary_tree_generator::bayesian_pcfg_induction::{
    induce_pcfg, same_rule, Grammar, ModelState, ParseTree, Rule, Symbol,
};

fn toy_grammar() -> Grammar {
    Grammar {
        rules: vec![
            Rule { lhs: "S".into(), rhs: vec![Symbol::T("a".into())] },
            Rule { lhs: "S".into(), rhs: vec![Symbol::T("b".into())] },
            Rule { lhs: "S".into(), rhs: vec![Symbol::T("a".into()), Symbol::T("b".into())] },
        ],
    }
}

fn parse(rule: &Rule, tokens: &[&str]) -> ParseTree {
    ParseTree {
        root: "S".into(),
        rules_used: vec![rule.clone()],
        yield_tokens: tokens.iter().map(|t| t.to_string()).collect(),
    }
}

#[test]
fn counts_are_initialized_correctly() {
    let grammar = toy_grammar();
    let parses = vec![
        ParseTree {
            root: "S".into(),
            rules_used: vec![grammar.rules[0].clone()],
            yield_tokens: vec!["a".into()],
        },
        ParseTree {
            root: "S".into(),
            rules_used: vec![grammar.rules[1].clone()],
            yield_tokens: vec!["b".into()],
        },
    ];

    let state = ModelState::new(grammar, parses);
    assert_eq!(state.count(&state.grammar.rules[0]), Some(1));
    assert_eq!(state.count(&state.grammar.rules[1]), Some(1));
    assert_eq!(state.count(&state.grammar.rules[2]), None);
}

#[test]
fn resampling_preserves_sentence_yield() {
    let grammar = toy_grammar();
    let parses = vec![ParseTree {
        root: "S".into(),
        rules_used: vec![grammar.rules[0].clone()],
        yield_tokens: vec!["a".into()],
    }];

    let mut state = ModelState::new(grammar, parses);
    state.resample_parses();

    assert_eq!(state.parses[0].yield_tokens, vec!["a".to_string()]);
    assert_eq!(state.count(&state.grammar.rules[0]), Some(1));
}

#[test]
fn repeated_rules_are_counted_per_use() {
    let grammar = toy_grammar();
    let r0 = grammar.rules[0].clone();
    let parses = vec![
        ParseTree { root: "S".into(), rules_used: vec![r0.clone(), r0.clone()], yield_tokens: vec!["a".into()] },
        parse(&r0, &["a"]),
    ];
    let state = ModelState::new(grammar, parses);
    assert_eq!(state.count(&r0), Some(3));
}

#[test]
fn resampling_picks_the_first_fitting_rule() {
    let grammar = toy_grammar();
    // Wrong rules on purpose: the sampler replaces them.
    let parses = vec![parse(&grammar.rules[1], &["a", "b"]), parse(&grammar.rules[2], &["b"])];
    let mut state = ModelState::new(grammar, parses);
    assert!(state.can_sample_all());
    state.resample_parses();
    let rules = state.grammar.rules.clone();
    assert_eq!(state.parses[0].rules_used, vec![rules[2].clone()]);
    assert_eq!(state.parses[1].rules_used, vec![rules[1].clone()]);
    assert_eq!(state.parses[0].root, "S");
    assert_eq!(state.parses[0].yield_tokens, vec!["a".to_string(), "b".to_string()]);
    // Counts follow the parses; a count that drops to zero stays recorded.
    assert_eq!(state.count(&rules[0]), None);
    assert_eq!(state.count(&rules[1]), Some(1));
    assert_eq!(state.count(&rules[2]), Some(1));
    state.resample_parses();
    assert_eq!(state.count(&rules[1]), Some(1));
    assert_eq!(state.count(&rules[2]), Some(1));
}

#[test]
fn sentences_without_a_fitting_rule_cannot_be_sampled() {
    let grammar = toy_grammar();
    let parses = vec![parse(&grammar.rules[0], &["a", "b", "c"])];
    let state = ModelState::new(grammar, parses);
    assert!(!state.can_sample_all());
    let parses = vec![parse(&toy_grammar().rules[0], &["c"])];
    let state = ModelState::new(toy_grammar(), parses);
    assert!(!state.can_sample_all());
}

#[test]
fn posterior_probabilities_sum_to_one_per_lhs() {
    let grammar = toy_grammar();
    let parses = vec![
        ParseTree {
            root: "S".into(),
            rules_used: vec![grammar.rules[0].clone()],
            yield_tokens: vec!["a".into()],
        },
        ParseTree {
            root: "S".into(),
            rules_used: vec![grammar.rules[0].clone()],
            yield_tokens: vec!["a".into()],
        },
    ];

    let state = ModelState::new(grammar, parses);
    let alpha = 0.5;
    let stats = state.rule_statistics().unwrap();
    assert_eq!(stats, vec![(2, 2, 3), (0, 2, 3), (0, 2, 3)]);
    let sum: f64 = state
        .grammar
        .rules
        .iter()
        .zip(stats.iter())
        .filter(|(r, _)| r.lhs == "S")
        .map(|(_, &(c, total, k))| (c as f64 + alpha) / (total as f64 + k as f64 * alpha))
        .sum();

    assert!((sum - 1.0).abs() < 1e-9);
}

#[test]
fn induction_runs_multiple_iterations() {
    let grammar = toy_grammar();
    let parses = vec![
        ParseTree {
            root: "S".into(),
            rules_used: vec![grammar.rules[0].clone()],
            yield_tokens: vec!["a".into()],
        },
        ParseTree {
            root: "S".into(),
            rules_used: vec![grammar.rules[1].clone()],
            yield_tokens: vec!["b".into()],
        },
    ];

    let state = ModelState::new(grammar, parses);
    let out = induce_pcfg(state, 3);
    assert_eq!(out.parses.len(), 2);
}

#[test]
fn induction_settles_on_the_sampled_rules() {
    let grammar = toy_grammar();
    let r = grammar.rules.clone();
    // The second sentence starts out with the rule of the first.
    let parses = vec![
        ParseTree { root: "S".into(), rules_used: vec![r[0].clone()], yield_tokens: vec!["a".into()] },
        ParseTree { root: "S".into(), rules_used: vec![r[0].clone()], yield_tokens: vec!["b".into()] },
    ];
    let state = ModelState::new(grammar, parses);
    assert_eq!(state.count(&r[0]), Some(2));
    let unchanged = induce_pcfg(state, 0);
    assert_eq!(unchanged.count(&r[0]), Some(2));
    assert_eq!(unchanged.count(&r[1]), None);
    let out = induce_pcfg(unchanged, 4);
    assert_eq!(out.count(&r[0]), Some(1));
    assert_eq!(out.count(&r[1]), Some(1));
    assert_eq!(out.count(&r[2]), None);
    assert!(same_rule(&out.parses[1].rules_used[0], &r[1]));
    assert_eq!(out.parses[1].yield_tokens, vec!["b".to_string()]);
}

#[test]
fn statistics_per_lhs() {
    let grammar = Grammar {
        rules: vec![
            Rule { lhs: "S".into(), rhs: vec![Symbol::N("A".into()), Symbol::N("A".into())] },
            Rule { lhs: "A".into(), rhs: vec![Symbol::T("a".into())] },
            Rule { lhs: "S".into(), rhs: vec![Symbol::T("a".into())] },
        ],
    };
    let r = grammar.rules.clone();
    let parses = vec![ParseTree {
        root: "S".into(),
        rules_used: vec![r[0].clone(), r[1].clone(), r[1].clone()],
        yield_tokens: vec!["a".into(), "a".into()],
    }];
    let state = ModelState::new(grammar, parses);
    assert_eq!(state.rule_statistics(), Some(vec![(1, 1, 2), (2, 2, 1), (0, 1, 2)]));
}

#[test]
fn statistics_report_an_overflowing_total() {
    let grammar = toy_grammar();
    let mut state = ModelState::new(grammar, vec![]);
    let rules = state.grammar.rules.clone();
    state.counts = vec![(rules[0].clone(), usize::MAX), (rules[1].clone(), 1)];
    assert_eq!(state.count(&rules[0]), Some(usize::MAX));
    assert_eq!(state.rule_statistics(), None);
}

#[test]
fn rules_compare_by_sides() {
    let g = toy_grammar();
    assert!(same_rule(&g.rules[0], &g.rules[0].clone()));
    assert!(!same_rule(&g.rules[0], &g.rules[1]));
    assert!(!same_rule(&g.rules[0], &g.rules[2]));
    let n = Rule { lhs: "S".into(), rhs: vec![Symbol::N("a".into())] };
    assert!(!same_rule(&g.rules[0], &n));
}
