use nff::{LoadError, NonTerminals, Token};

fn solved(grammar: &str) -> NonTerminals {
    let mut nt = NonTerminals::init(grammar.to_string()).expect("grammar should load");
    nt.calculate_null_set();
    nt.calculate_first_set();
    nt.calculate_follow_set();
    nt
}

fn as_sorted(v: Vec<char>) -> Vec<char> {
    let mut v = v;
    v.sort();
    v
}

#[test]
fn nullable_basic_grammar() {
    let nt = solved("S -> A B\nA -> a\nA -> 0\nB -> b");
    assert_eq!(nt.is_nullable('A'), Some(true));
    assert_eq!(nt.is_nullable('B'), Some(false));
    assert_eq!(nt.is_nullable('S'), Some(false));
}

#[test]
fn first_basic_grammar() {
    let nt = solved("S -> A B\nA -> a\nA -> 0\nB -> b");
    assert_eq!(as_sorted(nt.first_of('S').unwrap()), vec!['a', 'b']);
    assert_eq!(nt.first_of('A').unwrap(), vec!['a']);
    assert_eq!(nt.first_of('B').unwrap(), vec!['b']);
}

#[test]
fn follow_propagates_through_nullable() {
    let nt = solved("S -> A B\nA -> a\nA -> 0\nB -> b");
    // A is nullable and followed by B, so B's first set feeds A's follow set
    assert!(nt.follow_of('A').unwrap().contains(&'b'));
}

#[test]
fn follow_direct_terminal() {
    let nt = solved("S -> A b\nA -> a");
    assert_eq!(nt.follow_of('A').unwrap(), vec!['b']);
}

#[test]
fn terminal_blocks_first_propagation() {
    let nt = solved("S -> a B\nB -> b");
    assert_eq!(nt.first_of('S').unwrap(), vec!['a']);
}

#[test]
fn nullable_chain_needs_several_passes() {
    let nt = solved("S -> A B\nA -> B C\nB -> 0\nC -> 0");
    assert_eq!(nt.is_nullable('S'), Some(true));
    assert_eq!(nt.is_nullable('A'), Some(true));
    assert_eq!(nt.is_nullable('B'), Some(true));
    assert_eq!(nt.is_nullable('C'), Some(true));
}

#[test]
fn rerunning_after_convergence_changes_nothing() {
    let mut nt = solved("S -> A B\nA -> a\nA -> 0\nB -> b");
    let null_before: Vec<Option<bool>> =
        nt.nonterminals().iter().map(|&c| nt.is_nullable(c)).collect();
    let first_before: Vec<Option<Vec<char>>> =
        nt.nonterminals().iter().map(|&c| nt.first_of(c)).collect();
    let follow_before: Vec<Option<Vec<char>>> =
        nt.nonterminals().iter().map(|&c| nt.follow_of(c)).collect();
    nt.calculate_null_set();
    nt.calculate_first_set();
    nt.calculate_follow_set();
    let null_after: Vec<Option<bool>> =
        nt.nonterminals().iter().map(|&c| nt.is_nullable(c)).collect();
    let first_after: Vec<Option<Vec<char>>> =
        nt.nonterminals().iter().map(|&c| nt.first_of(c)).collect();
    let follow_after: Vec<Option<Vec<char>>> =
        nt.nonterminals().iter().map(|&c| nt.follow_of(c)).collect();
    assert_eq!(null_before, null_after);
    assert_eq!(first_before, first_after);
    assert_eq!(follow_before, follow_after);
}

#[test]
fn rule_order_does_not_change_memberships() {
    let one = solved("S -> A B\nA -> a\nA -> 0\nB -> b");
    let two = solved("S -> A B\nA -> 0\nA -> a\nB -> b");
    for c in ['S', 'A', 'B'] {
        assert_eq!(one.is_nullable(c), two.is_nullable(c));
        assert_eq!(
            as_sorted(one.first_of(c).unwrap()),
            as_sorted(two.first_of(c).unwrap())
        );
        assert_eq!(
            as_sorted(one.follow_of(c).unwrap()),
            as_sorted(two.follow_of(c).unwrap())
        );
    }
}

#[test]
fn two_character_lhs_is_rejected() {
    assert_eq!(
        NonTerminals::init("Ab -> c".to_string()).err(),
        Some(LoadError::LhsTooLong)
    );
}

#[test]
fn missing_separator_is_rejected() {
    assert!(NonTerminals::init("S a b".to_string()).is_err());
}

#[test]
fn lowercase_lhs_is_rejected() {
    assert_eq!(
        NonTerminals::init("x -> y".to_string()).err(),
        Some(LoadError::MalformedLhs)
    );
}

#[test]
fn blank_lhs_is_rejected() {
    assert_eq!(
        NonTerminals::init("  -> y".to_string()).err(),
        Some(LoadError::MalformedLhs)
    );
}

#[test]
fn lone_nonterminal_line_is_rejected() {
    assert_eq!(
        NonTerminals::init("A".to_string()).err(),
        Some(LoadError::MissingRhs)
    );
}

#[test]
fn undefined_nonterminal_is_rejected() {
    assert_eq!(
        NonTerminals::init("S -> A B\nA -> a".to_string()).err(),
        Some(LoadError::UndefinedNonterminal('B'))
    );
}

#[test]
fn empty_grammar_loads_with_no_nonterminals() {
    let nt = NonTerminals::init(String::new()).unwrap();
    assert!(nt.nonterminals().is_empty());
    assert_eq!(nt.is_nullable('S'), None);
}

#[test]
fn trailing_newline_is_accepted() {
    let nt = NonTerminals::init("S -> a\n".to_string()).unwrap();
    assert_eq!(nt.nonterminals(), vec!['S']);
}

#[test]
fn rules_are_parsed_and_stored_in_order() {
    let nt = NonTerminals::init("S -> A b\nS -> 0\nA -> a".to_string()).unwrap();
    let rules = nt.rules_of('S').unwrap();
    assert_eq!(
        rules,
        vec![
            vec![Token::Nonterminal('A'), Token::Terminal('b')],
            vec![Token::Null],
        ]
    );
    assert_eq!(nt.rules_of('A'), Some(vec![vec![Token::Terminal('a')]]));
    assert_eq!(nt.rules_of('X'), None);
}

#[test]
fn whitespace_in_rhs_is_ignored() {
    let one = solved("S -> a  b\nT -> c");
    let two = solved("S -> ab\nT -> c");
    assert_eq!(
        as_sorted(one.first_of('S').unwrap()),
        as_sorted(two.first_of('S').unwrap())
    );
    assert_eq!(one.rules_of('S'), two.rules_of('S'));
}

#[test]
fn second_separator_ends_the_rhs() {
    let nt = NonTerminals::init("S -> a -> b".to_string()).unwrap();
    assert_eq!(nt.rules_of('S').unwrap(), vec![vec![Token::Terminal('a')]]);
}

#[test]
fn nonterminals_keep_first_seen_order() {
    let nt = NonTerminals::init("S -> A B\nA -> a\nB -> b\nA -> 0".to_string()).unwrap();
    assert_eq!(nt.nonterminals(), vec!['S', 'A', 'B']);
}

#[test]
fn left_recursive_grammar_converges() {
    let nt = solved("E -> E p T\nE -> T\nT -> x");
    assert_eq!(nt.is_nullable('E'), Some(false));
    assert_eq!(as_sorted(nt.first_of('E').unwrap()), vec!['x']);
    assert!(nt.follow_of('T').unwrap().contains(&'p'));
}

#[test]
fn follow_inherited_from_enclosing_rule() {
    // B ends a rule of A, so B inherits A's follow set
    let nt = solved("S -> A c\nA -> B\nB -> b");
    assert!(nt.follow_of('A').unwrap().contains(&'c'));
    assert!(nt.follow_of('B').unwrap().contains(&'c'));
}

#[test]
fn follow_collects_only_first_occurrence() {
    // after the first A, the terminal x ends collection; the later y is
    // not gathered for A
    let nt = solved("S -> A x A y\nA -> a");
    let follow_a = nt.follow_of('A').unwrap();
    assert!(follow_a.contains(&'x'));
    assert!(!follow_a.contains(&'y'));
}
