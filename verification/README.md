# Binary tree generator

Exhaustive parsing of binary grammars: every binary tree that a grammar in
Chomsky normal form assigns to an input, built one token at a time.

## Library (`src/`, verified)

- `binary_grammar`: the grammar as lookup tables (terminal rules by token
  or for any token, binary rules by pair of child labels), with `expression()`, a grammar of
  arithmetic expressions, and `binary_string()`, whose parses of a string are
  all its binary bracketings.
- `binary_tree`: parse trees and their text form.
- `stack`, `generator_state`: a shift-reduce parser that keeps every stack of
  partial trees; after each shift it reduces as far as the grammar allows and
  keeps each intermediate stack. The parses of an input are exactly the trees
  the grammar derives for it (`lemma_parses_exact`), each once when no token
  has a label twice (`lemma_parses_unique`).
- `context`, `state`: a left-corner parser over contexts of complete and
  incomplete symbols; it accepts exactly the inputs that the grammar derives
  from its start symbol (`lemma_tops_exact`), and agrees with the stack parser
  (`lemma_parsers_agree`).
- `bayesian_pcfg_induction`: rule counts over sampled parses, the sampler's
  resampling sweep and repeated sweeps (`induce_pcfg`; a second sweep changes
  nothing, `lemma_resampled_twice`), and the counts that the rule posteriors
  are made of.

## Program (`app/`)

Parser combinators over closures (`Grammar<T, N>` with `Shift`, `Reduce`,
`then`, `star`, `plus`), the example grammars of binary strings, sentences
and expressions, the floating-point posteriors of the sampler and
inside-outside training.
