use automata::ast::{Ast, BuildError};
use automata::builder::compile;
use automata::expr::{thompsons_construction, Expr};
use automata::dfa::{subset_construction, DFA};
use automata::nfa::{Automaton, Configuration, NFA};
use automata::state::PatternID;

fn nfa_accepts(nfa: &NFA, s: &str) -> bool {
    let input: Vec<char> = s.chars().collect();
    let config = nfa.execute(&input);
    nfa.is_accepting(&config)
}

fn dfa_accepts(dfa: &DFA, s: &str) -> bool {
    let input: Vec<char> = s.chars().collect();
    match dfa.execute(&input) {
        Some(state) => dfa.is_accepting_state(state),
        None => false,
    }
}

fn sample_ast() -> Ast {
    // (a|b)c*
    Ast::concatenation(vec![
        Ast::alternation(vec![Ast::Character('a'), Ast::Character('b')]).unwrap(),
        Ast::repetition(Ast::Character('c')).unwrap(),
    ])
    .unwrap()
}

#[test]
fn dfa_and_nfa_agree_on_sample_inputs() {
    let nfa = compile(&sample_ast(), PatternID::new(0)).unwrap();
    let dfa = subset_construction(&nfa);
    for input in ["", "a", "b", "c", "ac", "bc", "accc", "bccc", "ab", "ca", "abc"] {
        assert_eq!(
            nfa_accepts(&nfa, input),
            dfa_accepts(&dfa, input),
            "disagreement on {input:?}",
        );
    }
}

#[test]
fn subset_construction_is_deterministic() {
    let nfa = compile(&sample_ast(), PatternID::new(0)).unwrap();
    let first = subset_construction(&nfa);
    let second = subset_construction(&nfa);
    assert_eq!(first, second);
}

#[test]
fn epsilon_closure_is_idempotent_on_a_cyclic_automaton() {
    let ast = Ast::repetition(Ast::Character('a')).unwrap();
    let nfa = compile(&ast, PatternID::new(0)).unwrap();
    let seed = Configuration::with_state(nfa.initial_state());
    let once = nfa.follow_epsilon(&seed);
    let twice = nfa.follow_epsilon(&once);
    assert!(once.set_eq(&twice));
}

#[test]
fn epsilon_closure_does_not_cross_consuming_edges() {
    let nfa = NFA::character('a');
    // the start state's only outgoing edge consumes a symbol, so the
    // closure of the start state is the start state alone
    let seed = Configuration::with_state(nfa.initial_state());
    let closure = nfa.follow_epsilon(&seed);
    assert_eq!(closure.len(), 1);
    assert!(closure.contains(nfa.initial_state()));
}

#[test]
fn follow_character_steps_only_on_the_matching_symbol() {
    let nfa = NFA::character('a');
    let seed = nfa.follow_epsilon(&Configuration::with_state(nfa.initial_state()));
    let on_a = nfa.follow_character(&seed, 'a');
    assert_eq!(on_a.len(), 1);
    assert!(on_a.contains(nfa.accepting_state()));
    let on_b = nfa.follow_character(&seed, 'b');
    assert!(on_b.is_empty());
}

#[test]
fn on_epsilon_and_on_character_read_single_states() {
    let empty = NFA::empty();
    let eps = empty.on_epsilon(empty.initial_state());
    assert_eq!(eps.len(), 1);
    assert_eq!(eps[0], empty.accepting_state());
    assert_eq!(empty.on_character(empty.initial_state(), 'x'), None);

    let chr = NFA::character('a');
    assert!(chr.on_epsilon(chr.initial_state()).is_empty());
    assert_eq!(chr.on_character(chr.initial_state(), 'a'), Some(chr.accepting_state()));
    assert_eq!(chr.on_character(chr.initial_state(), 'b'), None);
}

#[test]
fn combinators_build_the_expected_arenas() {
    let empty = NFA::empty();
    assert_eq!(empty.size(), 2);
    assert_eq!(empty.initial_state().as_usize(), 0);
    assert_eq!(empty.accepting_state().as_usize(), 1);
    assert!(empty.is_accepting_state(empty.accepting_state()));
    assert!(!empty.is_accepting_state(empty.initial_state()));

    let a = NFA::character('a');
    let b = NFA::character('b');
    let ab = NFA::concatenation(a, b);
    assert_eq!(ab.size(), 3);
    assert!(nfa_accepts(&ab, "ab"));
    assert!(!nfa_accepts(&ab, "a"));
    assert!(!nfa_accepts(&ab, "ba"));

    let a = NFA::character('a');
    let b = NFA::character('b');
    let a_or_b = NFA::union(a, b);
    assert_eq!(a_or_b.size(), 6);
    assert!(nfa_accepts(&a_or_b, "a"));
    assert!(nfa_accepts(&a_or_b, "b"));
    assert!(!nfa_accepts(&a_or_b, "c"));

    let star = NFA::kleene_star(NFA::character('a'));
    assert_eq!(star.size(), 4);
    assert!(nfa_accepts(&star, ""));
    assert!(nfa_accepts(&star, "aaa"));
    assert!(!nfa_accepts(&star, "ba"));

    let mut alphabet = a_or_b.alphabet().clone();
    alphabet.sort();
    assert_eq!(alphabet, vec!['a', 'b']);
}

#[test]
fn thompsons_construction_matches_the_size_formula() {
    let expr = Expr::Concatenation(vec![Expr::Character('a'), Expr::Character('b')]);
    let nfa = thompsons_construction(&expr).unwrap();
    assert_eq!(nfa.size(), 3);
    assert!(nfa_accepts(&nfa, "ab"));
    assert!(!nfa_accepts(&nfa, "b"));

    let nested = Expr::Repetition(Box::new(Expr::Repetition(Box::new(Expr::Character('a')))));
    let nfa = thompsons_construction(&nested).unwrap();
    assert_eq!(nfa.size(), 6);
    assert!(nfa_accepts(&nfa, ""));
    assert!(nfa_accepts(&nfa, "aaaa"));
    assert!(!nfa_accepts(&nfa, "ab"));

    let alt = Expr::Alternation(vec![
        Expr::Character('a'),
        Expr::Character('b'),
        Expr::Character('c'),
    ]);
    let nfa = thompsons_construction(&alt).unwrap();
    assert_eq!(nfa.size(), 10);
    assert!(nfa_accepts(&nfa, "c"));

    assert_eq!(
        thompsons_construction(&Expr::Concatenation(vec![])),
        Err(BuildError::InvalidAst),
    );
    assert_eq!(
        thompsons_construction(&Expr::Repetition(Box::new(Expr::Alternation(vec![])))),
        Err(BuildError::InvalidAst),
    );
}

#[test]
fn dfa_accessors_expose_the_initial_configuration() {
    let nfa = compile(&sample_ast(), PatternID::new(0)).unwrap();
    let dfa = subset_construction(&nfa);
    assert_eq!(dfa.initial_state().as_usize(), 0);
    let start = nfa.start();
    assert!(dfa.configuration(dfa.initial_state()).set_eq(&start));
}
