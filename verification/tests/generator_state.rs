use binary_tree_generator::binary_grammar::BinaryGrammar;
use binary_tree_generator::binary_tree::BinaryTree;
use binary_tree_generator::generator_state::GeneratorState;

fn show(tree: &BinaryTree<char>) -> String {
    match tree {
        BinaryTree::Terminal { token, .. } => format!("{token}"),
        BinaryTree::Nonterminal { left, right, .. } => format!("({} {})", show(left), show(right)),
    }
}

fn tokens(tree: &BinaryTree<char>) -> String {
    match tree {
        BinaryTree::Terminal { token, .. } => format!("{token}"),
        BinaryTree::Nonterminal { left, right, .. } => format!("{}{}", tokens(left), tokens(right)),
    }
}

fn read(input: &str, grammar: &BinaryGrammar<char>) -> GeneratorState<char> {
    let mut state = GeneratorState::default();
    for c in input.chars() {
        state = state.process(c, grammar);
    }
    state
}

fn parses(input: &str) -> Vec<BinaryTree<char>> {
    let g = BinaryGrammar::expression();
    read(input, &g).filter_stacks().tops()
}

#[test]
fn start_state_has_one_empty_stack() {
    let state: GeneratorState<char> = GeneratorState::default();
    assert_eq!(state.len(), 1);
    assert!(state.tops().is_empty());
}

#[test]
fn one_digit_has_one_parse() {
    let g = BinaryGrammar::expression();
    let state = read("1", &g);
    assert_eq!(state.len(), 1);
    let trees = state.filter_stacks().tops();
    assert_eq!(trees, vec![BinaryTree::Terminal { label: "E".to_string(), token: '1' }]);
}

#[test]
fn unknown_token_leaves_no_stack() {
    let g = BinaryGrammar::expression();
    let state = read("1x", &g);
    assert_eq!(state.len(), 0);
    assert!(state.tops().is_empty());
}

#[test]
fn negation_parses_as_expression_and_operand() {
    let g = BinaryGrammar::expression();
    let state = read("-1", &g);
    // [E(1) UnOp], [E], [E(1) BinOp], [BinOpE]
    assert_eq!(state.len(), 4);
    let trees = state.filter_stacks().tops();
    let labels: Vec<String> = trees.iter().map(|t| t.label()).collect();
    assert_eq!(labels, vec!["E", "BinOpE"]);
    assert!(trees.iter().all(|t| show(t) == "(- 1)"));
}

#[test]
fn ambiguous_expression_has_both_bracketings() {
    let trees = parses("1*2+3");
    let shown: Vec<String> = trees.iter().map(show).collect();
    assert_eq!(shown, vec!["(1 (* (2 (+ 3))))", "((1 (* 2)) (+ 3))"]);
    assert!(trees.iter().all(|t| t.label() == "E" && tokens(t) == "1*2+3"));
}

#[test]
fn every_parse_spells_the_input() {
    for input in ["1", "-2", "1-2", "-1+2*4", "1*-2+3", "--1"] {
        for t in parses(input) {
            assert_eq!(tokens(&t), input);
        }
    }
}

#[test]
fn incomplete_input_has_no_expression_parse() {
    assert!(parses("1+").iter().all(|t| t.label() != "E"));
    assert!(parses("1 2").is_empty());
}

#[test]
fn prefix_operators_nest() {
    let shown: Vec<String> = parses("--1").iter().filter(|t| t.label() == "E").map(show).collect();
    assert_eq!(shown, vec!["(- (- 1))"]);
}

#[test]
fn six_leaves_give_every_binary_tree() {
    let g = BinaryGrammar::binary_string();
    let trees = read("abcdef", &g).filter_stacks().tops();
    assert_eq!(trees.len(), 42);
    let mut shown: Vec<String> = trees.iter().map(|t| t.to_text()).collect();
    assert!(shown.contains(&"(a (b (c (d (e f)))))".to_string()));
    assert!(shown.contains(&"(((((a b) c) d) e) f)".to_string()));
    assert!(shown.contains(&"((a b) ((c d) (e f)))".to_string()));
    shown.sort();
    shown.dedup();
    assert_eq!(shown.len(), 42);
}

#[test]
fn any_characters_are_bracketed() {
    let g = BinaryGrammar::binary_string();
    let shown: Vec<String> = read("A1 ", &g).filter_stacks().tops().iter().map(|t| t.to_text()).collect();
    assert_eq!(shown.len(), 2);
    assert!(shown.contains(&"(A (1  ))".to_string()));
    assert!(shown.contains(&"((A 1)  )".to_string()));
}

#[test]
fn four_leaves_give_five_trees() {
    let g = BinaryGrammar::binary_string();
    let shown: Vec<String> = read("abcd", &g).filter_stacks().tops().iter().map(|t| t.to_text()).collect();
    assert_eq!(shown.len(), 5);
    for expected in ["(a (b (c d)))", "(a ((b c) d))", "((a b) (c d))", "((a (b c)) d)", "(((a b) c) d)"] {
        assert!(shown.contains(&expected.to_string()), "{expected}");
    }
}
