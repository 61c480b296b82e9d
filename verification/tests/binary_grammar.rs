use binary_tree_generator::binary_grammar::BinaryGrammar;
use binary_tree_generator::binary_tree::BinaryTree;

#[test]
fn expression_grammar_terminals() {
    let g = BinaryGrammar::expression();
    assert_eq!(g.lookup_terminals(&'3'), Some(&vec!["E".to_string()]));
    assert_eq!(
        g.lookup_terminals(&'-'),
        Some(&vec!["UnOp".to_string(), "BinOp".to_string()])
    );
    assert_eq!(g.lookup_terminals(&'*'), Some(&vec!["BinOp".to_string()]));
    assert_eq!(g.lookup_terminals(&'5'), None);
    assert_eq!(g.lookup_terminals(&'a'), None);
    assert_eq!(g.start(), "E");
}

#[test]
fn expression_grammar_nonterminals() {
    let g = BinaryGrammar::expression();
    let pair = |l: &str, r: &str| (l.to_string(), r.to_string());
    assert_eq!(g.lookup_nonterminals(&pair("UnOp", "E")), Some(&"E".to_string()));
    assert_eq!(g.lookup_nonterminals(&pair("BinOp", "E")), Some(&"BinOpE".to_string()));
    assert_eq!(g.lookup_nonterminals(&pair("E", "BinOpE")), Some(&"E".to_string()));
    assert_eq!(g.lookup_nonterminals(&pair("E", "E")), None);
    assert_eq!(g.lookup_nonterminals(&pair("E", "UnOp")), None);
}

#[test]
fn binary_string_grammar_rules() {
    let g = BinaryGrammar::binary_string();
    assert_eq!(g.start(), "S");
    assert_eq!(g.lookup_terminals(&'a'), Some(&vec!["S".to_string()]));
    assert_eq!(g.lookup_terminals(&'m'), Some(&vec!["S".to_string()]));
    assert_eq!(g.lookup_terminals(&'z'), Some(&vec!["S".to_string()]));
    assert_eq!(g.lookup_terminals(&'A'), Some(&vec!["S".to_string()]));
    assert_eq!(g.lookup_terminals(&'{'), Some(&vec!["S".to_string()]));
    assert_eq!(g.lookup_terminals(&' '), Some(&vec!["S".to_string()]));
    let pair = |l: &str, r: &str| (l.to_string(), r.to_string());
    assert_eq!(g.lookup_nonterminals(&pair("S", "S")), Some(&"S".to_string()));
    assert_eq!(g.lookup_nonterminals(&pair("S", "E")), None);
    assert!(g.has_left_corner(&"S".to_string()));
}

#[test]
fn adding_a_terminal_appends_its_label() {
    let mut g: BinaryGrammar<char> = BinaryGrammar::new("S".to_string());
    assert_eq!(g.lookup_terminals(&'x'), None);
    g.add_terminal('x', "A".to_string());
    g.add_terminal('y', "B".to_string());
    g.add_terminal('x', "C".to_string());
    assert_eq!(g.lookup_terminals(&'x'), Some(&vec!["A".to_string(), "C".to_string()]));
    assert_eq!(g.lookup_terminals(&'y'), Some(&vec!["B".to_string()]));
}

#[test]
fn a_rule_for_any_token_applies_to_every_token_in_order() {
    let mut g: BinaryGrammar<char> = BinaryGrammar::new("S".to_string());
    g.add_terminal('x', "A".to_string());
    g.add_any_terminal("B".to_string());
    assert_eq!(g.lookup_terminals(&'x'), Some(&vec!["A".to_string(), "B".to_string()]));
    assert_eq!(g.lookup_terminals(&'q'), Some(&vec!["B".to_string()]));
    g.add_terminal('y', "C".to_string());
    assert_eq!(g.lookup_terminals(&'y'), Some(&vec!["B".to_string(), "C".to_string()]));
    assert_eq!(g.lookup_terminals(&'z'), Some(&vec!["B".to_string()]));
    g.add_any_terminal("D".to_string());
    assert_eq!(g.lookup_terminals(&'x'), Some(&vec!["A".to_string(), "B".to_string(), "D".to_string()]));
    assert_eq!(g.lookup_terminals(&'y'), Some(&vec!["B".to_string(), "C".to_string(), "D".to_string()]));
    assert_eq!(g.lookup_terminals(&'z'), Some(&vec!["B".to_string(), "D".to_string()]));
}

#[test]
fn adding_a_binary_rule_replaces_the_parent() {
    let mut g: BinaryGrammar<u8> = BinaryGrammar::new("S".to_string());
    let pair = ("A".to_string(), "B".to_string());
    assert_eq!(g.lookup_nonterminals(&pair), None);
    g.add_nonterminal("A".to_string(), "B".to_string(), "S".to_string());
    assert_eq!(g.lookup_nonterminals(&pair), Some(&"S".to_string()));
    g.add_nonterminal("A".to_string(), "B".to_string(), "T".to_string());
    assert_eq!(g.lookup_nonterminals(&pair), Some(&"T".to_string()));
    assert_eq!(g.lookup_nonterminals(&("B".to_string(), "A".to_string())), None);
}

#[test]
fn left_corners_of_the_expression_grammar() {
    let g = BinaryGrammar::expression();
    assert!(g.has_left_corner(&"UnOp".to_string()));
    assert!(g.has_left_corner(&"BinOp".to_string()));
    assert!(g.has_left_corner(&"E".to_string()));
    assert!(!g.has_left_corner(&"BinOpE".to_string()));
}

#[test]
fn label_is_the_root_label() {
    let leaf = BinaryTree::Terminal { label: "E".to_string(), token: '1' };
    assert_eq!(leaf.label(), "E");
    let node = BinaryTree::Nonterminal {
        label: "E".to_string(),
        left: Box::new(BinaryTree::Terminal { label: "UnOp".to_string(), token: '-' }),
        right: Box::new(leaf.clone()),
    };
    assert_eq!(node.label(), "E");
    assert_eq!(node.clone(), node);
}

#[test]
fn tree_text_brackets_each_inner_node() {
    let leaf = |t: char| BinaryTree::Terminal { label: "E".to_string(), token: t };
    let node = |l: BinaryTree<char>, r: BinaryTree<char>| BinaryTree::Nonterminal {
        label: "E".to_string(),
        left: Box::new(l),
        right: Box::new(r),
    };
    assert_eq!(leaf('a').to_text(), "a");
    assert_eq!(node(leaf('a'), node(leaf('b'), leaf('c'))).to_text(), "(a (b c))");
    assert_eq!(node(node(leaf('a'), leaf('b')), leaf('c')).to_text(), "((a b) c)");
}
