use vstd::prelude::*;

use crate::binary_tree::BinaryTree;
use crate::token::Token;

verus! {

/// A grammar in Chomsky normal form, held as two lookup tables:
/// - terminal rules `A -> token`, by token: the labels `A` that a token may have;
/// - binary rules `A -> B C`, by the pair of child labels `(B, C)`: the parent `A`;
/// - terminal rules `A -> any token`, whose labels every token may have.
///
/// A token, or a pair of child labels, is looked up in its first entry. A token's
/// entry holds the labels of all the terminal rules that apply to it, in the order
/// the rules were added; a token without an entry has the labels of the rules for
/// any token.
#[derive(Debug)]
pub struct BinaryGrammar<T> {
    terminals: Vec<(T, Vec<String>)>,
    any_token: Vec<String>,
    nonterminals: Vec<(String, String, String)>,
    start: String,
}

impl<T: Token> BinaryGrammar<T> {
    spec fn is_terminal_entry(self, t: T, i: int) -> bool {
        &&& 0 <= i < self.terminals@.len()
        &&& self.terminals@[i].0 == t
        &&& forall|j: int| 0 <= j < i ==> self.terminals@[j].0 != t
    }

    spec fn is_nonterminal_entry(self, l: Seq<char>, r: Seq<char>, i: int) -> bool {
        &&& 0 <= i < self.nonterminals@.len()
        &&& self.nonterminals@[i].0@ == l
        &&& self.nonterminals@[i].1@ == r
        &&& forall|j: int|
            0 <= j < i ==> !(self.nonterminals@[j].0@ == l && self.nonterminals@[j].1@ == r)
    }

    /// The labels that a token may have, if the grammar has a terminal rule for it.
    pub closed spec fn terminal_labels(self, t: T) -> Option<Seq<String>> {
        if exists|i: int| self.is_terminal_entry(t, i) {
            Some(self.terminals@[choose|i: int| self.is_terminal_entry(t, i)].1@)
        } else if self.any_token@.len() > 0 {
            Some(self.any_token@)
        } else {
            None
        }
    }

    /// The parent label of a pair of child labels, if the grammar has a binary rule for it.
    pub closed spec fn parent(self, l: Seq<char>, r: Seq<char>) -> Option<String> {
        if exists|i: int| self.is_nonterminal_entry(l, r, i) {
            Some(self.nonterminals@[choose|i: int| self.is_nonterminal_entry(l, r, i)].2)
        } else {
            None
        }
    }

    /// Whether some binary rule has `l` as its left child.
    pub closed spec fn is_left_corner(self, l: Seq<char>) -> bool {
        exists|r: Seq<char>| #[trigger] self.parent(l, r) is Some
    }

    /// A label that is the left child of some binary rule starts a binary rule.
    pub proof fn lemma_left_corner(self, l: Seq<char>, r: Seq<char>)
        requires
            self.parent(l, r) is Some,
        ensures
            self.is_left_corner(l),
    {
    }

    /// The label of the start symbol.
    pub closed spec fn start_label(self) -> Seq<char> {
        self.start@
    }

    /// A tree is derived by the grammar when each leaf's label is one of its
    /// token's labels and each inner node's label is the parent of its children's.
    pub open spec fn derives(self, tree: BinaryTree<T>) -> bool
        decreases tree,
    {
        match tree {
            BinaryTree::Terminal { label, token } => {
                &&& self.terminal_labels(token) is Some
                &&& self.terminal_labels(token).unwrap().contains(label)
            },
            BinaryTree::Nonterminal { label, left, right } => {
                &&& self.parent(left.root_label(), right.root_label()) == Some(label)
                &&& self.derives(*left)
                &&& self.derives(*right)
            },
        }
    }

    proof fn lemma_terminal_entry(self, t: T, i: int)
        requires
            self.is_terminal_entry(t, i),
        ensures
            self.terminal_labels(t) == Some(self.terminals@[i].1@),
    {
        let k = choose|k: int| self.is_terminal_entry(t, k);
        assert(self.is_terminal_entry(t, k));
        if k < i {
            assert(self.terminals@[k].0 != t);
        } else if i < k {
            assert(self.terminals@[i].0 != t);
        }
    }

    proof fn lemma_nonterminal_entry(self, l: Seq<char>, r: Seq<char>, i: int)
        requires
            self.is_nonterminal_entry(l, r, i),
        ensures
            self.parent(l, r) == Some(self.nonterminals@[i].2),
    {
        let k = choose|k: int| self.is_nonterminal_entry(l, r, k);
        assert(self.is_nonterminal_entry(l, r, k));
        if k < i {
            assert(!(self.nonterminals@[k].0@ == l && self.nonterminals@[k].1@ == r));
        } else if i < k {
            assert(!(self.nonterminals@[i].0@ == l && self.nonterminals@[i].1@ == r));
        }
    }

    proof fn lemma_matching_entry(self, l: Seq<char>, r: Seq<char>, i: int)
        requires
            0 <= i < self.nonterminals@.len(),
            self.nonterminals@[i].0@ == l,
            self.nonterminals@[i].1@ == r,
        ensures
            self.parent(l, r) is Some,
        decreases i,
    {
        if exists|k: int| 0 <= k < i && self.nonterminals@[k].0@ == l && self.nonterminals@[k].1@ == r {
            let k = choose|k: int|
                0 <= k < i && self.nonterminals@[k].0@ == l && self.nonterminals@[k].1@ == r;
            self.lemma_matching_entry(l, r, k);
        } else {
            assert(self.is_nonterminal_entry(l, r, i));
        }
    }

    /// An empty grammar with the given start symbol.
    pub fn new(start: String) -> (g: Self)
        ensures
            g.start_label() == start@,
            forall|t: T| g.terminal_labels(t) is None,
            forall|l: Seq<char>, r: Seq<char>| g.parent(l, r) is None,
    {
        BinaryGrammar { terminals: Vec::new(), any_token: Vec::new(), nonterminals: Vec::new(), start }
    }

    /// Returns the start symbol.
    pub fn start(&self) -> (s: &String)
        ensures
            s@ == self.start_label(),
    {
        &self.start
    }

    fn find_terminal(&self, token: &T) -> (r: Option<usize>)
        ensures
            r matches Some(i) ==> self.is_terminal_entry(*token, i as int),
            r is None ==> forall|j: int| 0 <= j < self.terminals@.len() ==> self.terminals@[j].0 != *token,
    {
        let mut i: usize = 0;
        while i < self.terminals.len()
            invariant
                i <= self.terminals@.len(),
                forall|j: int| 0 <= j < i ==> self.terminals@[j].0 != *token,
            decreases self.terminals@.len() - i,
        {
            if self.terminals[i].0.same(token) {
                return Some(i);
            }
            i = i + 1;
        }
        None
    }

    fn find_nonterminal(&self, left: &String, right: &String) -> (r: Option<usize>)
        ensures
            r matches Some(i) ==> self.is_nonterminal_entry(left@, right@, i as int),
            r is None ==> forall|j: int|
                0 <= j < self.nonterminals@.len() ==> !(self.nonterminals@[j].0@ == left@
                    && self.nonterminals@[j].1@ == right@),
    {
        let mut i: usize = 0;
        while i < self.nonterminals.len()
            invariant
                i <= self.nonterminals@.len(),
                forall|j: int|
                    0 <= j < i ==> !(self.nonterminals@[j].0@ == left@ && self.nonterminals@[j].1@
                        == right@),
            decreases self.nonterminals@.len() - i,
        {
            let entry = &self.nonterminals[i];
            if entry.0 == *left && entry.1 == *right {
                return Some(i);
            }
            i = i + 1;
        }
        None
    }

    /// Whether some binary rule has `left` as its left child.
    pub fn has_left_corner(&self, left: &String) -> (r: bool)
        ensures
            r == self.is_left_corner(left@),
    {
        let mut i: usize = 0;
        while i < self.nonterminals.len()
            invariant
                i <= self.nonterminals@.len(),
                forall|j: int| 0 <= j < i ==> self.nonterminals@[j].0@ != left@,
            decreases self.nonterminals@.len() - i,
        {
            if self.nonterminals[i].0 == *left {
                proof {
                    self.lemma_matching_entry(left@, self.nonterminals@[i as int].1@, i as int);
                }
                return true;
            }
            i = i + 1;
        }
        proof {
            assert forall|r: Seq<char>| !(#[trigger] self.parent(left@, r) is Some) by {
                assert forall|k: int| !self.is_nonterminal_entry(left@, r, k) by {}
            }
        }
        false
    }

    /// The labels that `token` may have, or `None` when no terminal rule has it.
    pub fn lookup_terminals(&self, token: &T) -> (r: Option<&Vec<String>>)
        ensures
            r matches Some(v) ==> self.terminal_labels(*token) == Some(v@),
            r is None ==> self.terminal_labels(*token) is None,
    {
        match self.find_terminal(token) {
            Some(i) => {
                proof {
                    self.lemma_terminal_entry(*token, i as int);
                }
                Some(&self.terminals[i].1)
            },
            None => {
                if self.any_token.len() > 0 {
                    Some(&self.any_token)
                } else {
                    None
                }
            },
        }
    }

    /// The parent of the pair of child labels `labels`, or `None` when no binary rule has it.
    pub fn lookup_nonterminals(&self, labels: &(String, String)) -> (r: Option<&String>)
        ensures
            r matches Some(p) ==> self.parent(labels.0@, labels.1@) == Some(*p),
            r is None ==> self.parent(labels.0@, labels.1@) is None,
    {
        match self.find_nonterminal(&labels.0, &labels.1) {
            Some(i) => {
                proof {
                    self.lemma_nonterminal_entry(labels.0@, labels.1@, i as int);
                }
                Some(&self.nonterminals[i].2)
            },
            None => None,
        }
    }
    /// Adds the terminal rule `label -> token`: `label` goes to the end of the
    /// token's labels (after those of the rules for any token, for a token
    /// without an entry yet).
    pub fn add_terminal(&mut self, token: T, label: String)
        ensures
            final(self).terminal_labels(token) == Some(
                match old(self).terminal_labels(token) {
                    Some(ls) => ls.push(label),
                    None => seq![label],
                },
            ),
            forall|t: T| t != token ==> final(self).terminal_labels(t) == old(self).terminal_labels(t),
            forall|l: Seq<char>, r: Seq<char>| final(self).parent(l, r) == old(self).parent(l, r),
            final(self).start_label() == old(self).start_label(),
    {
        let ghost before = *self;
        match self.find_terminal(&token) {
            Some(i) => {
                proof {
                    before.lemma_terminal_entry(token, i as int);
                }
                let mut labels = self.terminals[i].1.clone();
                labels.push(label);
                self.terminals.set(i, (token, labels));
                proof {
                    assert(self.is_terminal_entry(token, i as int));
                    self.lemma_terminal_entry(token, i as int);
                    assert(self.terminals@[i as int].1@ =~= before.terminals@[i as int].1@.push(
                        label,
                    ));
                    assert forall|t: T| t != token implies self.terminal_labels(t)
                        == before.terminal_labels(t) by {
                        if exists|k: int| before.is_terminal_entry(t, k) {
                            let k = choose|k: int| before.is_terminal_entry(t, k);
                            before.lemma_terminal_entry(t, k);
                            assert(self.is_terminal_entry(t, k));
                            self.lemma_terminal_entry(t, k);
                        } else {
                            assert forall|k: int| !self.is_terminal_entry(t, k) by {
                                if self.is_terminal_entry(t, k) {
                                    assert forall|j: int| 0 <= j < k implies before.terminals@[j].0
                                        != t by {
                                        assert(self.terminals@[j].0 != t);
                                    }
                                    assert(before.is_terminal_entry(t, k));
                                }
                            }
                        }
                    }
                    self.lemma_same_nonterminals(before);
                }
            },
            None => {
                let mut labels = self.any_token.clone();
                labels.push(label);
                self.terminals.push((token, labels));
                proof {
                    let n = before.terminals@.len() as int;
                    assert(self.is_terminal_entry(token, n));
                    self.lemma_terminal_entry(token, n);
                    assert(!(exists|k: int| before.is_terminal_entry(token, k)));
                    if before.any_token@.len() == 0 {
                        assert(self.terminals@[n].1@ =~= seq![label]);
                    }
                    assert forall|t: T| t != token implies self.terminal_labels(t)
                        == before.terminal_labels(t) by {
                        if exists|k: int| before.is_terminal_entry(t, k) {
                            let k = choose|k: int| before.is_terminal_entry(t, k);
                            before.lemma_terminal_entry(t, k);
                            assert(self.is_terminal_entry(t, k));
                            self.lemma_terminal_entry(t, k);
                        } else {
                            assert forall|k: int| !self.is_terminal_entry(t, k) by {
                                if self.is_terminal_entry(t, k) {
                                    assert forall|j: int| 0 <= j < k implies before.terminals@[j].0
                                        != t by {
                                        assert(self.terminals@[j].0 != t);
                                    }
                                    assert(before.is_terminal_entry(t, k));
                                }
                            }
                        }
                    }
                    self.lemma_same_nonterminals(before);
                }
            },
        }
    }

    /// Adds the terminal rule `label -> any token`: `label` goes to the end of
    /// every token's labels.
    pub fn add_any_terminal(&mut self, label: String)
        ensures
            forall|t: T|
                #[trigger] final(self).terminal_labels(t) == Some(
                    match old(self).terminal_labels(t) {
                        Some(ls) => ls.push(label),
                        None => seq![label],
                    },
                ),
            forall|l: Seq<char>, r: Seq<char>| final(self).parent(l, r) == old(self).parent(l, r),
            final(self).start_label() == old(self).start_label(),
    {
        let ghost before = *self;
        let n = self.terminals.len();
        let mut i: usize = 0;
        while i < n
            invariant
                n == self.terminals@.len(),
                n == before.terminals@.len(),
                i <= n,
                self.any_token == before.any_token,
                self.nonterminals == before.nonterminals,
                self.start == before.start,
                forall|j: int| 0 <= j < n ==> #[trigger] self.terminals@[j].0 == before.terminals@[j].0,
                forall|j: int|
                    0 <= j < i ==> #[trigger] self.terminals@[j].1@ == before.terminals@[j].1@.push(
                        label,
                    ),
                forall|j: int| i <= j < n ==> #[trigger] self.terminals@[j].1@ == before.terminals@[j].1@,
            decreases n - i,
        {
            let token = self.terminals[i].0;
            let mut labels = self.terminals[i].1.clone();
            labels.push(label.clone());
            proof {
                assert(labels@ =~= before.terminals@[i as int].1@.push(label));
            }
            self.terminals.set(i, (token, labels));
            i = i + 1;
        }
        self.any_token.push(label);
        proof {
            assert forall|t: T, k: int| self.is_terminal_entry(t, k) == before.is_terminal_entry(t, k) by {
                if 0 <= k < n {
                    assert(self.terminals@[k].0 == before.terminals@[k].0);
                    assert forall|j: int| 0 <= j < k implies (self.terminals@[j].0 != t
                        <==> before.terminals@[j].0 != t) by {
                        assert(self.terminals@[j].0 == before.terminals@[j].0);
                    }
                }
            }
            assert forall|t: T| #[trigger] self.terminal_labels(t) == Some(
                match before.terminal_labels(t) {
                    Some(ls) => ls.push(label),
                    None => seq![label],
                },
            ) by {
                if exists|k: int| before.is_terminal_entry(t, k) {
                    let k = choose|k: int| before.is_terminal_entry(t, k);
                    before.lemma_terminal_entry(t, k);
                    assert(self.is_terminal_entry(t, k));
                    self.lemma_terminal_entry(t, k);
                    assert(self.terminals@[k].1@ == before.terminals@[k].1@.push(label));
                } else {
                    assert forall|k: int| !self.is_terminal_entry(t, k) by {
                        assert(self.is_terminal_entry(t, k) == before.is_terminal_entry(t, k));
                    }
                    if before.any_token@.len() == 0 {
                        assert(self.any_token@ =~= seq![label]);
                    }
                }
            }
            self.lemma_same_nonterminals(before);
        }
    }

    proof fn lemma_same_nonterminals(self, other: Self)
        requires
            self.nonterminals@ == other.nonterminals@,
        ensures
            forall|l: Seq<char>, r: Seq<char>| self.parent(l, r) == other.parent(l, r),
    {
        assert forall|l: Seq<char>, r: Seq<char>| self.parent(l, r) == other.parent(l, r) by {
            assert forall|k: int|
                self.is_nonterminal_entry(l, r, k) == other.is_nonterminal_entry(l, r, k) by {}
        }
    }

    proof fn lemma_same_terminals(self, other: Self)
        requires
            self.terminals@ == other.terminals@,
            self.any_token@ == other.any_token@,
        ensures
            forall|t: T| self.terminal_labels(t) == other.terminal_labels(t),
    {
        assert forall|t: T| self.terminal_labels(t) == other.terminal_labels(t) by {
            assert forall|k: int| self.is_terminal_entry(t, k) == other.is_terminal_entry(t, k) by {}
        }
    }

    /// Adds the binary rule `parent -> left right`, in place of any rule
    /// with the same children.
    pub fn add_nonterminal(&mut self, left: String, right: String, parent: String)
        ensures
            final(self).parent(left@, right@) == Some(parent),
            forall|l: Seq<char>, r: Seq<char>|
                !(l == left@ && r == right@) ==> final(self).parent(l, r) == old(self).parent(l, r),
            forall|t: T| final(self).terminal_labels(t) == old(self).terminal_labels(t),
            final(self).start_label() == old(self).start_label(),
    {
        let ghost before = *self;
        let ghost lv = left@;
        let ghost rv = right@;
        let found = self.find_nonterminal(&left, &right);
        match found {
            Some(i) => {
                self.nonterminals.set(i, (left, right, parent));
                proof {
                    assert(self.is_nonterminal_entry(lv, rv, i as int));
                    self.lemma_nonterminal_entry(lv, rv, i as int);
                    assert forall|l: Seq<char>, r: Seq<char>| !(l == lv && r == rv) implies self.parent(
                        l,
                        r,
                    ) == before.parent(l, r) by {
                        if exists|k: int| before.is_nonterminal_entry(l, r, k) {
                            let k = choose|k: int| before.is_nonterminal_entry(l, r, k);
                            before.lemma_nonterminal_entry(l, r, k);
                            assert(self.is_nonterminal_entry(l, r, k));
                            self.lemma_nonterminal_entry(l, r, k);
                        } else {
                            assert forall|k: int| !self.is_nonterminal_entry(l, r, k) by {
                                if self.is_nonterminal_entry(l, r, k) {
                                    assert forall|j: int| 0 <= j < k implies !(
                                    before.nonterminals@[j].0@ == l && before.nonterminals@[j].1@
                                        == r) by {
                                        assert(!(self.nonterminals@[j].0@ == l
                                            && self.nonterminals@[j].1@ == r));
                                    }
                                    assert(before.is_nonterminal_entry(l, r, k));
                                }
                            }
                        }
                    }
                    self.lemma_same_terminals(before);
                }
            },
            None => {
                self.nonterminals.push((left, right, parent));
                proof {
                    let n = before.nonterminals@.len() as int;
                    assert(self.is_nonterminal_entry(lv, rv, n));
                    self.lemma_nonterminal_entry(lv, rv, n);
                    assert forall|l: Seq<char>, r: Seq<char>| !(l == lv && r == rv) implies self.parent(
                        l,
                        r,
                    ) == before.parent(l, r) by {
                        if exists|k: int| before.is_nonterminal_entry(l, r, k) {
                            let k = choose|k: int| before.is_nonterminal_entry(l, r, k);
                            before.lemma_nonterminal_entry(l, r, k);
                            assert(self.is_nonterminal_entry(l, r, k));
                            self.lemma_nonterminal_entry(l, r, k);
                        } else {
                            assert forall|k: int| !self.is_nonterminal_entry(l, r, k) by {
                                if self.is_nonterminal_entry(l, r, k) {
                                    assert forall|j: int| 0 <= j < k implies !(
                                    before.nonterminals@[j].0@ == l && before.nonterminals@[j].1@
                                        == r) by {
                                        assert(!(self.nonterminals@[j].0@ == l
                                            && self.nonterminals@[j].1@ == r));
                                    }
                                    assert(before.is_nonterminal_entry(l, r, k));
                                }
                            }
                        }
                    }
                    self.lemma_same_terminals(before);
                }
            },
        }
    }
}

/// The character sequences of a sequence of labels.
pub open spec fn label_views(ls: Seq<String>) -> Seq<Seq<char>> {
    ls.map_values(|s: String| s@)
}

/// Terminal rules of the arithmetic expression grammar: digits 1 to 4 are
/// expressions `E`, `-` and `+` are unary or binary operators, `*` is binary.
pub open spec fn expression_terminals(t: char) -> Option<Seq<Seq<char>>> {
    if t == '1' || t == '2' || t == '3' || t == '4' {
        Some(seq![seq!['E']])
    } else if t == '-' || t == '+' {
        Some(seq![seq!['U', 'n', 'O', 'p'], seq!['B', 'i', 'n', 'O', 'p']])
    } else if t == '*' {
        Some(seq![seq!['B', 'i', 'n', 'O', 'p']])
    } else {
        None
    }
}

/// Binary rules of the arithmetic expression grammar:
/// `E -> UnOp E`, `BinOpE -> BinOp E` and `E -> E BinOpE`.
pub open spec fn expression_parent(l: Seq<char>, r: Seq<char>) -> Option<Seq<char>> {
    let e = seq!['E'];
    let un_op = seq!['U', 'n', 'O', 'p'];
    let bin_op = seq!['B', 'i', 'n', 'O', 'p'];
    let bin_op_e = seq!['B', 'i', 'n', 'O', 'p', 'E'];
    if l == un_op && r == e {
        Some(e)
    } else if l == bin_op && r == e {
        Some(bin_op_e)
    } else if l == e && r == bin_op_e {
        Some(e)
    } else {
        None
    }
}

impl BinaryGrammar<char> {
    /// The grammar of arithmetic expressions over the digits 1 to 4 with
    /// prefix `-`/`+` and infix `-`/`+`/`*`, started by `E`.
    pub fn expression() -> (g: Self)
        ensures
            g.start_label() == seq!['E'],
            forall|t: char|
                #![trigger g.terminal_labels(t)]
                match g.terminal_labels(t) {
                    Some(ls) => expression_terminals(t) == Some(label_views(ls)),
                    None => expression_terminals(t) is None,
                },
            forall|l: Seq<char>, r: Seq<char>|
                #![trigger g.parent(l, r)]
                match g.parent(l, r) {
                    Some(p) => expression_parent(l, r) == Some(p@),
                    None => expression_parent(l, r) is None,
                },
            forall|t: char|
                t == '1' || t == '2' || t == '3' || t == '4' ==> (#[trigger] g.terminal_labels(t)
                    matches Some(ls) && label_views(ls) == seq![seq!['E']]),
            g.terminal_labels('-') matches Some(ls) && label_views(ls) == seq![
                seq!['U', 'n', 'O', 'p'],
                seq!['B', 'i', 'n', 'O', 'p'],
            ],
            g.terminal_labels('+') matches Some(ls) && label_views(ls) == seq![
                seq!['U', 'n', 'O', 'p'],
                seq!['B', 'i', 'n', 'O', 'p'],
            ],
            g.terminal_labels('*') matches Some(ls) && label_views(ls) == seq![
                seq!['B', 'i', 'n', 'O', 'p'],
            ],
            forall|t: char|
                !(t == '1' || t == '2' || t == '3' || t == '4' || t == '-' || t == '+' || t == '*')
                    ==> #[trigger] g.terminal_labels(t) is None,
            g.parent(seq!['U', 'n', 'O', 'p'], seq!['E']) matches Some(p) && p@ == seq!['E'],
            g.parent(seq!['B', 'i', 'n', 'O', 'p'], seq!['E']) matches Some(p) && p@ == seq![
                'B',
                'i',
                'n',
                'O',
                'p',
                'E',
            ],
            g.parent(seq!['E'], seq!['B', 'i', 'n', 'O', 'p', 'E']) matches Some(p) && p@ == seq!['E'],
    {
        proof {
            reveal_strlit("E");
            reveal_strlit("UnOp");
            reveal_strlit("BinOp");
            reveal_strlit("BinOpE");
        }
        let mut g = BinaryGrammar::new("E".to_owned());
        g.add_terminal('1', "E".to_owned());
        g.add_terminal('2', "E".to_owned());
        g.add_terminal('3', "E".to_owned());
        g.add_terminal('4', "E".to_owned());
        g.add_terminal('-', "UnOp".to_owned());
        g.add_terminal('-', "BinOp".to_owned());
        g.add_terminal('+', "UnOp".to_owned());
        g.add_terminal('+', "BinOp".to_owned());
        g.add_terminal('*', "BinOp".to_owned());
        g.add_nonterminal("UnOp".to_owned(), "E".to_owned(), "E".to_owned());
        g.add_nonterminal("BinOp".to_owned(), "E".to_owned(), "BinOpE".to_owned());
        g.add_nonterminal("E".to_owned(), "BinOpE".to_owned(), "E".to_owned());
        proof {
            assert("E"@ =~= seq!['E']);
            assert("UnOp"@ =~= seq!['U', 'n', 'O', 'p']);
            assert("BinOp"@ =~= seq!['B', 'i', 'n', 'O', 'p']);
            assert("BinOpE"@ =~= seq!['B', 'i', 'n', 'O', 'p', 'E']);
            assert forall|t: char| #![trigger g.terminal_labels(t)]
                match g.terminal_labels(t) {
                    Some(ls) => expression_terminals(t) == Some(label_views(ls)),
                    None => expression_terminals(t) is None,
                } by {
                if let Some(ls) = g.terminal_labels(t) {
                    assert(label_views(ls) =~~= expression_terminals(t).unwrap());
                }
            }
            assert forall|l: Seq<char>, r: Seq<char>| #![trigger g.parent(l, r)]
                match g.parent(l, r) {
                    Some(p) => expression_parent(l, r) == Some(p@),
                    None => expression_parent(l, r) is None,
                } by {}
            assert forall|t: char| t == '1' || t == '2' || t == '3' || t == '4' implies (#[trigger] g.terminal_labels(t)
                matches Some(ls) && label_views(ls) == seq![seq!['E']]) by {
                assert(expression_terminals(t) == Some(seq![seq!['E']]));
            }
            assert(expression_terminals('-') is Some);
            assert(expression_terminals('+') is Some);
            assert(expression_terminals('*') is Some);
            assert forall|t: char|
                !(t == '1' || t == '2' || t == '3' || t == '4' || t == '-' || t == '+' || t == '*')
                    implies #[trigger] g.terminal_labels(t) is None by {
                assert(expression_terminals(t) is None);
            }
            assert(g.parent(seq!['U', 'n', 'O', 'p'], seq!['E']) is Some);
            assert(g.parent(seq!['B', 'i', 'n', 'O', 'p'], seq!['E']) is Some);
            assert(g.parent(seq!['E'], seq!['B', 'i', 'n', 'O', 'p', 'E']) is Some);
        }
        g
    }
}

/// Terminal rules of the binary-string grammar: every token is an `S`.
pub open spec fn binary_string_terminals(t: char) -> Option<Seq<Seq<char>>> {
    Some(seq![seq!['S']])
}

/// The binary rule of the binary-string grammar: `S -> S S`.
pub open spec fn binary_string_parent(l: Seq<char>, r: Seq<char>) -> Option<Seq<char>> {
    if l == seq!['S'] && r == seq!['S'] {
        Some(seq!['S'])
    } else {
        None
    }
}

impl BinaryGrammar<char> {
    /// The grammar of binary bracketings of strings: every character is an
    /// `S`, and `S -> S S`, started by `S`. Its parses of a string are all the
    /// binary trees with the string's characters as leaves.
    pub fn binary_string() -> (g: Self)
        ensures
            g.start_label() == seq!['S'],
            forall|t: char|
                #![trigger g.terminal_labels(t)]
                match g.terminal_labels(t) {
                    Some(ls) => binary_string_terminals(t) == Some(label_views(ls)),
                    None => binary_string_terminals(t) is None,
                },
            forall|l: Seq<char>, r: Seq<char>|
                #![trigger g.parent(l, r)]
                match g.parent(l, r) {
                    Some(p) => binary_string_parent(l, r) == Some(p@),
                    None => binary_string_parent(l, r) is None,
                },
            forall|t: char|
                (#[trigger] g.terminal_labels(t) matches Some(ls) && label_views(ls) == seq![
                    seq!['S'],
                ]),
            g.parent(seq!['S'], seq!['S']) matches Some(p) && p@ == seq!['S'],
    {
        proof {
            reveal_strlit("S");
        }
        let mut g = BinaryGrammar::new("S".to_owned());
        g.add_any_terminal("S".to_owned());
        g.add_nonterminal("S".to_owned(), "S".to_owned(), "S".to_owned());
        proof {
            assert("S"@ =~= seq!['S']);
            assert forall|t: char| #![trigger g.terminal_labels(t)]
                match g.terminal_labels(t) {
                    Some(ls) => binary_string_terminals(t) == Some(label_views(ls)),
                    None => binary_string_terminals(t) is None,
                } by {
                if let Some(ls) = g.terminal_labels(t) {
                    assert(label_views(ls) =~~= binary_string_terminals(t).unwrap());
                }
            }
            assert forall|l: Seq<char>, r: Seq<char>| #![trigger g.parent(l, r)]
                match g.parent(l, r) {
                    Some(p) => binary_string_parent(l, r) == Some(p@),
                    None => binary_string_parent(l, r) is None,
                } by {}
            assert forall|t: char|
                (#[trigger] g.terminal_labels(t) matches Some(ls) && label_views(ls) == seq![
                    seq!['S'],
                ]) by {
                assert(binary_string_terminals(t) is Some);
            }
            assert(g.parent(seq!['S'], seq!['S']) is Some);
        }
        g
    }
}

} // verus!
