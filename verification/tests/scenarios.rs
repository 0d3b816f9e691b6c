use automata::ast::{Ast, BuildError};
use automata::builder::{compile, compile_many};
use automata::dfa::subset_construction;
use automata::nfa::{Automaton, NFA};
use automata::state::PatternID;

fn nfa_accepts(nfa: &NFA, s: &str) -> bool {
    let input: Vec<char> = s.chars().collect();
    let config = nfa.execute(&input);
    nfa.is_accepting(&config)
}

fn compile_one(ast: &Ast) -> NFA {
    compile(ast, PatternID::new(0)).unwrap()
}

#[test]
fn single_character_pattern() {
    let ast = Ast::Character('a');
    let nfa = compile_one(&ast);
    assert_eq!(nfa.size(), 3);
    assert!(nfa_accepts(&nfa, "a"));
    assert!(!nfa_accepts(&nfa, "b"));
    assert!(!nfa_accepts(&nfa, ""));
}

#[test]
fn alternation_pattern() {
    let ast = Ast::alternation(vec![Ast::Character('a'), Ast::Character('b')]).unwrap();
    let nfa = compile_one(&ast);
    assert!(nfa_accepts(&nfa, "a"));
    assert!(nfa_accepts(&nfa, "b"));
    assert!(!nfa_accepts(&nfa, "c"));
    assert!(!nfa_accepts(&nfa, ""));
}

#[test]
fn repetition_pattern() {
    let ast = Ast::repetition(Ast::Character('a')).unwrap();
    let nfa = compile_one(&ast);
    assert!(nfa_accepts(&nfa, ""));
    assert!(nfa_accepts(&nfa, "a"));
    assert!(nfa_accepts(&nfa, "aaaa"));
    assert!(!nfa_accepts(&nfa, "b"));
    assert!(!nfa_accepts(&nfa, "ab"));
}

#[test]
fn concatenation_pattern() {
    let ast = Ast::concatenation(vec![Ast::Character('a'), Ast::Character('b')]).unwrap();
    let nfa = compile_one(&ast);
    assert!(nfa_accepts(&nfa, "ab"));
    assert!(!nfa_accepts(&nfa, ""));
    assert!(!nfa_accepts(&nfa, "a"));
    assert!(!nfa_accepts(&nfa, "b"));
    assert!(!nfa_accepts(&nfa, "ba"));
}

#[test]
fn empty_pattern_accepts_only_empty_input() {
    let nfa = compile_one(&Ast::Empty);
    assert!(nfa_accepts(&nfa, ""));
    assert!(!nfa_accepts(&nfa, "a"));
}

#[test]
fn multi_pattern_reports_every_completed_pattern() {
    let patterns = vec![
        (Ast::Character('a'), PatternID::new(0)),
        (
            Ast::alternation(vec![Ast::Character('a'), Ast::Character('b')]).unwrap(),
            PatternID::new(1),
        ),
    ];
    let nfa = compile_many(&patterns).unwrap();

    let input: Vec<char> = "a".chars().collect();
    let config = nfa.execute(&input);
    let matched = nfa.matched_patterns(&config);
    assert!(matched.contains(&PatternID::new(0)));
    assert!(matched.contains(&PatternID::new(1)));
    // reported in canonical member order of the configuration
    assert_eq!(matched, vec![PatternID::new(0), PatternID::new(1)]);

    let input: Vec<char> = "b".chars().collect();
    let config = nfa.execute(&input);
    let matched = nfa.matched_patterns(&config);
    assert!(!matched.contains(&PatternID::new(0)));
    assert!(matched.contains(&PatternID::new(1)));
}

#[test]
fn subset_construction_of_repetition_has_two_states() {
    let ast = Ast::repetition(Ast::Character('a')).unwrap();
    let nfa = compile_one(&ast);
    let dfa = subset_construction(&nfa);
    assert_eq!(dfa.size(), 2);
    // both states accept, and the non-initial one loops on itself
    let start = dfa.initial_state();
    assert!(dfa.is_accepting_state(start));
    let looped = dfa.next_state(start, 'a').unwrap();
    assert!(dfa.is_accepting_state(looped));
    assert_eq!(dfa.next_state(looped, 'a'), Some(looped));
}

#[test]
fn nested_repetition_still_builds_a_finite_automaton() {
    let ast = Ast::repetition(Ast::repetition(Ast::Character('a')).unwrap()).unwrap();
    let nfa = compile_one(&ast);
    assert_eq!(nfa.size(), 7);
    assert!(nfa_accepts(&nfa, ""));
    assert!(nfa_accepts(&nfa, "a"));
    assert!(nfa_accepts(&nfa, "aaaaaaaa"));
    assert!(!nfa_accepts(&nfa, "ab"));
    let dfa = subset_construction(&nfa);
    assert_eq!(dfa.size(), 2);
}

#[test]
fn dead_configuration_stays_dead_to_the_end() {
    let nfa = compile_one(&Ast::Character('a'));
    // the first symbol already kills the run; folding continues harmlessly
    assert!(!nfa_accepts(&nfa, "ba"));
    assert!(!nfa_accepts(&nfa, "aa"));
    let dfa = subset_construction(&nfa);
    let input: Vec<char> = "ba".chars().collect();
    assert_eq!(dfa.execute(&input), None);
}

#[test]
fn compile_rejects_invalid_trees() {
    let bad = Ast::Concatenation(vec![]);
    assert_eq!(compile(&bad, PatternID::new(0)), Err(BuildError::InvalidAst));
    let nested_bad = Ast::Repetition(Box::new(Ast::Alternation(vec![])));
    assert_eq!(compile(&nested_bad, PatternID::new(0)), Err(BuildError::InvalidAst));
    let patterns = vec![
        (Ast::Character('a'), PatternID::new(0)),
        (Ast::Alternation(vec![]), PatternID::new(1)),
    ];
    assert_eq!(compile_many(&patterns), Err(BuildError::InvalidAst));
}

#[test]
fn compiled_alphabet_collects_every_symbol() {
    let ast = Ast::concatenation(vec![
        Ast::alternation(vec![Ast::Character('a'), Ast::Character('b')]).unwrap(),
        Ast::repetition(Ast::Character('c')).unwrap(),
    ])
    .unwrap();
    let nfa = compile_one(&ast);
    let mut alphabet = nfa.alphabet().clone();
    alphabet.sort();
    assert_eq!(alphabet, vec!['a', 'b', 'c']);
}
