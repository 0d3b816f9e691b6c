use automata::ast::{Ast, BuildError};
use automata::nfa::Configuration;
use automata::state_id::StateID;
use automata::state_set::StateSet;
use automata::syntax::{tokenize, Token};

#[test]
fn state_id_round_trip() {
    let id = StateID::new(7);
    assert_eq!(id.as_usize(), 7);
    assert_eq!(StateID::new(7), id);
    assert!(StateID::new(3) < StateID::new(4));
}

#[test]
fn state_set_insert_and_contains() {
    let mut set = StateSet::new();
    assert!(set.is_empty());
    assert!(set.insert(StateID::new(2)));
    assert!(set.insert(StateID::new(0)));
    assert!(!set.insert(StateID::new(2)));
    assert!(!set.is_empty());
    assert_eq!(set.len(), 2);
    assert!(set.contains(StateID::new(0)));
    assert!(set.contains(StateID::new(2)));
    assert!(!set.contains(StateID::new(1)));
}

#[test]
fn state_set_iterates_in_canonical_order() {
    let members = vec![StateID::new(3), StateID::new(1), StateID::new(2), StateID::new(1)];
    let set = StateSet::with_states(&members);
    assert_eq!(set.len(), 3);
    let mut it = set.iter();
    assert_eq!(it.next(), Some(StateID::new(1)));
    assert_eq!(it.next(), Some(StateID::new(2)));
    assert_eq!(it.next(), Some(StateID::new(3)));
    assert_eq!(it.next(), None);
}

#[test]
fn state_set_with_state_is_singleton() {
    let set = StateSet::with_state(StateID::new(5));
    assert_eq!(set.len(), 1);
    assert_eq!(set.index(0), StateID::new(5));
}

#[test]
fn configuration_mirrors_state_set() {
    let config = Configuration::with_state(StateID::new(4));
    assert!(!config.is_empty());
    assert!(config.contains(StateID::new(4)));
    let mut other = Configuration::new();
    assert!(other.is_empty());
    other.insert(StateID::new(4));
    assert!(config.set_eq(&other));
    other.insert(StateID::new(9));
    assert!(!config.set_eq(&other));
    let mut it = other.iter();
    assert_eq!(it.next(), Some(StateID::new(4)));
    assert_eq!(it.next(), Some(StateID::new(9)));
    assert_eq!(it.next(), None);
}

#[test]
fn configuration_with_states_deduplicates() {
    let members = vec![StateID::new(2), StateID::new(2), StateID::new(0)];
    let config = Configuration::with_states(&members);
    assert_eq!(config.len(), 2);
    assert_eq!(config.index(0), StateID::new(0));
    assert_eq!(config.index(1), StateID::new(2));
}

#[test]
fn ast_constructors_accept_valid_shapes() {
    assert_eq!(Ast::empty(), Ok(Ast::Empty));
    assert_eq!(Ast::character('x'), Ok(Ast::Character('x')));
    let concat = Ast::concatenation(vec![Ast::Character('a'), Ast::Character('b')]).unwrap();
    assert_eq!(concat, Ast::Concatenation(vec![Ast::Character('a'), Ast::Character('b')]));
    let alt = Ast::alternation(vec![Ast::Character('a')]).unwrap();
    assert_eq!(alt, Ast::Alternation(vec![Ast::Character('a')]));
    let rep = Ast::repetition(Ast::Character('a')).unwrap();
    assert_eq!(rep, Ast::Repetition(Box::new(Ast::Character('a'))));
}

#[test]
fn ast_constructors_reject_childless_nodes() {
    assert_eq!(Ast::concatenation(vec![]), Err(BuildError::InvalidAst));
    assert_eq!(Ast::alternation(vec![]), Err(BuildError::InvalidAst));
}

#[test]
fn ast_check_wf_finds_nested_empty_lists() {
    let bad = Ast::Repetition(Box::new(Ast::Concatenation(vec![])));
    assert!(!bad.check_wf());
    let good = Ast::Repetition(Box::new(Ast::Character('a')));
    assert!(good.check_wf());
}

#[test]
fn ast_iter_walks_every_node() {
    let ast = Ast::Concatenation(vec![
        Ast::Character('a'),
        Ast::Alternation(vec![Ast::Character('b'), Ast::Empty]),
    ]);
    let mut it = ast.iter();
    let mut count = 0;
    while it.next().is_some() {
        count += 1;
    }
    assert_eq!(count, 5);
}

#[test]
fn tokenize_classifies_every_terminal() {
    let pattern: Vec<char> = "a|b*()".chars().collect();
    let tokens = tokenize(&pattern);
    assert_eq!(
        tokens,
        vec![
            Token::Character('a'),
            Token::Alternation,
            Token::Character('b'),
            Token::KleeneStar,
            Token::LeftParen,
            Token::RightParen,
            Token::EndOfInput,
        ],
    );
}

#[test]
fn tokenize_of_empty_pattern_is_end_of_input() {
    let pattern: Vec<char> = Vec::new();
    assert_eq!(tokenize(&pattern), vec![Token::EndOfInput]);
}
