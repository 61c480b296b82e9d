use binary_tree_generator::binary_grammar::BinaryGrammar;
use binary_tree_generator::context::{Context, PartialGrammar, Symbol};
use binary_tree_generator::generator_state::GeneratorState;
use binary_tree_generator::state::State;

fn read(input: &str) -> State<char, String> {
    let mut state = State::new(PartialGrammar(BinaryGrammar::expression()));
    for c in input.chars() {
        state = state.apply(&c);
    }
    state
}

#[test]
fn start_state_has_one_empty_context() {
    let state = read("");
    assert_eq!(state.len(), 1);
    assert!(state.tops().is_empty());
}

#[test]
fn one_digit_is_an_expression() {
    let state = read("1");
    // Complete(E) and Incomplete(E): E also starts E -> E BinOpE.
    assert_eq!(state.len(), 2);
    assert_eq!(state.single_contexts().tops(), vec!["E".to_string()]);
}

#[test]
fn ambiguous_expression_is_reported_per_parse() {
    let tops = read("1*2+3").single_contexts().tops();
    assert_eq!(tops, vec!["E".to_string(), "E".to_string()]);
}

#[test]
fn unfinished_input_is_no_expression() {
    assert!(read("1+").single_contexts().tops().is_empty());
    assert!(read("1x").single_contexts().tops().is_empty());
    assert_eq!(read("1x").len(), 0);
}

#[test]
fn complete_top_accepts_nothing() {
    let g = PartialGrammar(BinaryGrammar::expression());
    let ctx: Context<String> = Context::default().push(Symbol::Complete("E".to_string()));
    assert!(ctx.apply(Symbol::Complete("E".to_string()), &g).is_empty());
}

#[test]
fn partial_completes_with_its_right_child() {
    let g = PartialGrammar(BinaryGrammar::expression());
    let left = g.apply_binary(&vec!["UnOp".to_string()]);
    assert_eq!(left.len(), 1);
    let ctx: Context<String> = Context::default().push(Symbol::Incomplete(left[0].clone()));
    let out = ctx.apply(Symbol::Complete("E".to_string()), &g);
    // The parent E is offered complete and, as it starts E -> E BinOpE, incomplete.
    assert_eq!(out.len(), 2);
    match &out[0].0.as_ref().unwrap().0 {
        Symbol::Complete(s) => assert_eq!(s, "E"),
        Symbol::Incomplete(_) => panic!("expected a complete symbol"),
    }
    match &out[1].0.as_ref().unwrap().0 {
        Symbol::Incomplete(p) => assert_eq!(p.left, "E"),
        Symbol::Complete(_) => panic!("expected an incomplete symbol"),
    }
}

#[test]
fn token_offers_complete_then_incomplete_symbols() {
    let g = PartialGrammar(BinaryGrammar::expression());
    assert_eq!(g.apply_unary(&'-'), vec!["UnOp".to_string(), "BinOp".to_string()]);
    let out = Context::default().apply_token(&'-', &g);
    // Complete(UnOp), Complete(BinOp), Incomplete(UnOp), Incomplete(BinOp).
    assert_eq!(out.len(), 4);
    assert!(g.apply_unary(&'x').is_empty());
}

#[test]
fn partial_gives_at_most_one_parent() {
    let g = PartialGrammar(BinaryGrammar::expression());
    let p = &g.apply_binary(&vec!["E".to_string()])[0];
    assert!(g.apply_partial(p, &"E".to_string()).is_empty());
    assert_eq!(g.apply_partial(p, &"BinOpE".to_string()), vec!["E".to_string()]);
}

#[test]
fn parsers_agree_on_acceptance() {
    let g = BinaryGrammar::expression();
    for input in ["1", "-1", "1+", "1*2+3", "--1", "+", "12", "1-2*-3", "x"] {
        let mut stacks = GeneratorState::default();
        for c in input.chars() {
            stacks = stacks.process(c, &g);
        }
        let has_expression = stacks.filter_stacks().tops().iter().any(|t| t.label() == "E");
        let accepted = !read(input).single_contexts().tops().is_empty();
        assert_eq!(has_expression, accepted, "{input}");
    }
}

#[test]
fn every_binary_tree_of_six_leaves_is_a_context() {
    let g = BinaryGrammar::binary_string();
    let mut state = State::new(PartialGrammar(g));
    for c in "abcdef".chars() {
        state = state.apply(&c);
    }
    assert_eq!(state.single_contexts().tops().len(), 42);
}
