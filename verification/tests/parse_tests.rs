use turing_machine::machine::RunError;
use turing_machine::parse::{
    create_final_states, create_states, create_tuple, machine_from_definition, parse_u32,
    split_commas, split_tokens, ParseError,
};
use turing_machine::rules::{State, Tuple};
use turing_machine::tape::Moves;

#[test]
fn create_states_numbers_from_zero() {
    let states = create_states(3);
    assert_eq!(
        states,
        vec![State::new(0), State::new(1), State::new(2)]
    );
    assert!(create_states(0).is_empty());
}

#[test]
fn parse_u32_accepts_digits() {
    assert_eq!(parse_u32(&vec!['4', '2']), Ok(42));
    assert_eq!(parse_u32(&vec!['0']), Ok(0));
    assert_eq!(parse_u32(&vec!['4', '2', '9', '4', '9', '6', '7', '2', '9', '5']), Ok(u32::MAX));
}

#[test]
fn parse_u32_rejects_empty_nondigit_and_overflow() {
    assert_eq!(parse_u32(&vec![]), Err(ParseError::MalformedNumber));
    assert_eq!(parse_u32(&vec!['1', 'x']), Err(ParseError::MalformedNumber));
    assert_eq!(parse_u32(&vec!['-', '1']), Err(ParseError::MalformedNumber));
    assert_eq!(
        parse_u32(&vec!['4', '2', '9', '4', '9', '6', '7', '2', '9', '6']),
        Err(ParseError::MalformedNumber)
    );
}

#[test]
fn split_tokens_drops_whitespace_runs() {
    let toks = split_tokens(&"  0  a\tb  ".chars().collect());
    assert_eq!(
        toks,
        vec![vec!['0'], vec!['a'], vec!['b']]
    );
    assert!(split_tokens(&" \t ".chars().collect::<Vec<char>>()).is_empty());
}

#[test]
fn split_commas_keeps_empty_pieces() {
    let pieces = split_commas(&"1,,2".chars().collect());
    assert_eq!(pieces, vec![vec!['1'], vec![], vec!['2']]);
    let single = split_commas(&"7".chars().collect());
    assert_eq!(single, vec![vec!['7']]);
    let empty = split_commas(&Vec::new());
    assert_eq!(empty, vec![Vec::<char>::new()]);
}

#[test]
fn create_final_states_parses_each_id() {
    let r = create_final_states(vec!["1", "3"]);
    assert_eq!(r, Ok(vec![State::new(1), State::new(3)]));
}

#[test]
fn create_final_states_rejects_malformed_ids() {
    assert_eq!(
        create_final_states(vec!["1", "x"]),
        Err(ParseError::MalformedNumber)
    );
    assert_eq!(
        create_final_states(vec![""]),
        Err(ParseError::MalformedNumber)
    );
}

#[test]
fn create_tuple_parses_a_rule_line() {
    let t = create_tuple("0 a b L 1");
    assert_eq!(
        t,
        Ok(Tuple::new(State::new(0), 'a', 'b', Moves::L, State::new(1)))
    );
    let t = create_tuple("  2  x y  S  2 ");
    assert_eq!(
        t,
        Ok(Tuple::new(State::new(2), 'x', 'y', Moves::S, State::new(2)))
    );
}

#[test]
fn create_tuple_rejects_too_few_tokens() {
    assert_eq!(create_tuple("0 a"), Err(ParseError::WrongTokenCount));
    assert_eq!(create_tuple(""), Err(ParseError::WrongTokenCount));
    assert_eq!(create_tuple("0 a b L 1 extra"), Err(ParseError::WrongTokenCount));
}

#[test]
fn create_tuple_rejects_bad_move_and_bad_ids() {
    assert_eq!(create_tuple("0 a b X 1"), Err(ParseError::UnknownMove));
    assert_eq!(create_tuple("0 a b LL 1"), Err(ParseError::UnknownMove));
    assert_eq!(create_tuple("q a b L 1"), Err(ParseError::MalformedNumber));
    assert_eq!(create_tuple("0 a b L q"), Err(ParseError::MalformedNumber));
}

fn lines(v: &[&str]) -> Vec<String> {
    v.iter().map(|s| s.to_string()).collect()
}

#[test]
fn definition_builds_and_runs() {
    let def = lines(&["2", "0", "1", "$", "0 1 1 R 0", "0 $ 1 S 1"]);
    let mut m = machine_from_definition(&def, "11").expect("well-formed definition");
    assert_eq!(m.input_alph, vec!['1', '$']);
    let t = m.run(100).expect("accepting halt");
    assert_eq!(t.content, vec!['1', '1', '1']);
    assert_eq!(m.current_state, State::new(1));
}

#[test]
fn definition_without_rules_is_accepted() {
    let def = lines(&["1", "0", "0", "$"]);
    let mut m = machine_from_definition(&def, "a").expect("well-formed definition");
    assert!(m.tuples.is_empty());
    let t = m.run(5).expect("instant accepting halt");
    assert_eq!(t.content, vec!['a']);
}

#[test]
fn definition_rejects_short_header() {
    let def = lines(&["2", "0"]);
    assert!(matches!(
        machine_from_definition(&def, "a"),
        Err(ParseError::MissingHeader)
    ));
}

#[test]
fn definition_rejects_malformed_header_numbers() {
    let def = lines(&["two", "0", "0", "$"]);
    assert!(matches!(
        machine_from_definition(&def, "a"),
        Err(ParseError::MalformedNumber)
    ));
    let def = lines(&["2", "0", "1,x", "$"]);
    assert!(matches!(
        machine_from_definition(&def, "a"),
        Err(ParseError::MalformedNumber)
    ));
}

#[test]
fn definition_rejects_empty_blank_line() {
    let def = lines(&["1", "0", "0", ""]);
    assert!(matches!(
        machine_from_definition(&def, "a"),
        Err(ParseError::MissingBlank)
    ));
}

#[test]
fn definition_rejects_bad_rule_line() {
    let def = lines(&["2", "0", "1", "$", "0 a"]);
    assert!(matches!(
        machine_from_definition(&def, "a"),
        Err(ParseError::WrongTokenCount)
    ));
}

#[test]
fn definition_rejects_undeclared_states() {
    let def = lines(&["1", "5", "0", "$"]);
    assert!(matches!(
        machine_from_definition(&def, "a"),
        Err(ParseError::StateOutOfRange)
    ));
    let def = lines(&["1", "0", "7", "$"]);
    assert!(matches!(
        machine_from_definition(&def, "a"),
        Err(ParseError::StateOutOfRange)
    ));
    let def = lines(&["1", "0", "0", "$", "0 a b L 9"]);
    assert!(matches!(
        machine_from_definition(&def, "a"),
        Err(ParseError::StateOutOfRange)
    ));
}

#[test]
fn definition_rejects_empty_tape() {
    let def = lines(&["1", "0", "0", "$"]);
    assert!(matches!(
        machine_from_definition(&def, ""),
        Err(ParseError::EmptyTape)
    ));
}

#[test]
fn alphabet_keeps_first_occurrences_in_order() {
    let def = lines(&["2", "0", "1", "$", "0 1 1 R 0", "0 $ 1 S 1"]);
    let m = machine_from_definition(&def, "1").expect("well-formed definition");
    assert_eq!(m.input_alph, vec!['1', '$']);
    let def = lines(&["2", "0", "1", "$", "0 a b R 0", "0 b a S 1"]);
    let m = machine_from_definition(&def, "a").expect("well-formed definition");
    assert_eq!(m.input_alph, vec!['a', 'b']);
}

#[test]
fn non_final_halt_from_definition_is_distinct() {
    let def = lines(&["2", "0", "1", "$", "0 a b S 0"]);
    let mut m = machine_from_definition(&def, "a").expect("well-formed definition");
    match m.run(100) {
        Err(RunError::HaltedNonFinal(t)) => assert_eq!(t.content, vec!['b']),
        _ => panic!("expected a non-final halt"),
    }
}
