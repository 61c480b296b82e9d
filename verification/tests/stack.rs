use binary_tree_generator::binary_grammar::BinaryGrammar;
use binary_tree_generator::binary_tree::BinaryTree;
use binary_tree_generator::stack::Stack;

fn terminal(label: &str, token: char) -> BinaryTree<char> {
    BinaryTree::Terminal { label: label.to_string(), token }
}

#[test]
fn test_reduce_second_character() {
    let stack = Stack::default().push(terminal("UnOp", '-'));
    let x = stack.shift_reduce(terminal("E", '1'), &BinaryGrammar::expression());
    match x[1].top() {
        BinaryTree::Terminal { label: _, token: _ } => panic!("Expected a nonterminal, got a terminal"),
        BinaryTree::Nonterminal { label: _, left: _, right: _ } => (),
    }
}

#[test]
fn test_reduce_third_character() {
    let stack = Stack::default().push(terminal("E", 'a')).push(terminal("E", 'b'));
    let x = stack.shift_reduce(terminal("E", 'c'), &BinaryGrammar::expression());
    assert_eq!(1, x.len());
}

#[test]
fn push_puts_the_element_on_top() {
    let stack = Stack::default().push(terminal("E", '1')).push(terminal("UnOp", '-'));
    assert_eq!(stack.top(), terminal("UnOp", '-'));
}

#[test]
fn shift_onto_empty_stack_only_pushes() {
    let stack: Stack<BinaryTree<char>> = Stack::default();
    let x = stack.shift_reduce(terminal("E", '1'), &BinaryGrammar::expression());
    assert_eq!(x.len(), 1);
    assert_eq!(x[0].top(), terminal("E", '1'));
    assert!(x[0].0.as_ref().unwrap().1 .0.is_none());
}

#[test]
fn shift_reduces_the_whole_right_edge() {
    // E(1) BinOp(*) UnOp(-) then E(2): UnOp E -> E, BinOp E -> BinOpE, E BinOpE -> E.
    let stack = Stack::default()
        .push(terminal("E", '1'))
        .push(terminal("BinOp", '*'))
        .push(terminal("UnOp", '-'));
    let x = stack.shift_reduce(terminal("E", '2'), &BinaryGrammar::expression());
    assert_eq!(x.len(), 4);
    let labels: Vec<String> = x.iter().map(|s| s.top().label()).collect();
    assert_eq!(labels, vec!["E", "E", "BinOpE", "E"]);
    // The last stack holds a single tree over all four tokens.
    assert!(x[3].0.as_ref().unwrap().1 .0.is_none());
    let top = x[3].top();
    let expected = BinaryTree::Nonterminal {
        label: "E".to_string(),
        left: Box::new(terminal("E", '1')),
        right: Box::new(BinaryTree::Nonterminal {
            label: "BinOpE".to_string(),
            left: Box::new(terminal("BinOp", '*')),
            right: Box::new(BinaryTree::Nonterminal {
                label: "E".to_string(),
                left: Box::new(terminal("UnOp", '-')),
                right: Box::new(terminal("E", '2')),
            }),
        }),
    };
    assert_eq!(top, expected);
}
