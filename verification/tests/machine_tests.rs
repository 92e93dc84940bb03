use turing_machine::machine::{RunError, TuringMachine};
use turing_machine::parse::create_states;
use turing_machine::rules::{lookup, State, Tuple};
use turing_machine::tape::{Moves, Tape};

fn unary_increment_machine() -> TuringMachine {
    let states = create_states(2);
    let rules = vec![
        Tuple::new(State::new(0), '1', '1', Moves::R, State::new(0)),
        Tuple::new(State::new(0), '$', '1', Moves::S, State::new(1)),
    ];
    let tape = Tape::new(vec!['1', '1'], '$');
    TuringMachine::new(
        states,
        State::new(0),
        vec![State::new(1)],
        vec!['1', '$'],
        rules,
        '$',
        tape,
    )
}

#[test]
fn unary_increment_accepts_with_extra_one() {
    let mut m = unary_increment_machine();
    let r = m.run(100);
    match r {
        Ok(t) => {
            assert_eq!(t.content, vec!['1', '1', '1']);
            assert_eq!(t.pos, 2);
        }
        Err(_) => panic!("expected an accepting halt"),
    }
    assert_eq!(m.current_state, State::new(1));
}

#[test]
fn no_rules_halt_instantly_and_accept() {
    let states = create_states(1);
    let tape = Tape::new(vec!['a'], '$');
    let mut m = TuringMachine::new(
        states,
        State::new(0),
        vec![State::new(0)],
        vec![],
        vec![],
        '$',
        tape,
    );
    let r = m.run(100);
    match r {
        Ok(t) => {
            assert_eq!(t.content, vec!['a']);
            assert_eq!(t.pos, 0);
        }
        Err(_) => panic!("expected an accepting halt"),
    }
    assert_eq!(m.current_state, State::new(0));
}

#[test]
fn non_final_halt_is_reported() {
    let states = create_states(2);
    let rules = vec![Tuple::new(State::new(0), 'a', 'b', Moves::S, State::new(0))];
    let tape = Tape::new(vec!['a'], '$');
    let mut m = TuringMachine::new(
        states,
        State::new(0),
        vec![State::new(1)],
        vec!['a', 'b'],
        rules,
        '$',
        tape,
    );
    let r = m.run(100);
    match r {
        Ok(_) => panic!("a halt in a non-final state must not look like success"),
        Err(RunError::HaltedNonFinal(t)) => {
            assert_eq!(t.content, vec!['b']);
        }
        Err(RunError::StepLimitReached) => panic!("the machine halts after one step"),
    }
    assert_eq!(m.current_state, State::new(0));
}

#[test]
fn step_limit_reported_when_machine_spins() {
    let states = create_states(1);
    let rules = vec![Tuple::new(State::new(0), 'a', 'a', Moves::S, State::new(0))];
    let tape = Tape::new(vec!['a'], '$');
    let mut m = TuringMachine::new(
        states,
        State::new(0),
        vec![State::new(0)],
        vec!['a'],
        rules,
        '$',
        tape,
    );
    let r = m.run(10);
    assert!(matches!(r, Err(RunError::StepLimitReached)));
    assert_eq!(m.tape.content, vec!['a']);
}

#[test]
fn rerunning_from_scratch_is_deterministic() {
    let mut m1 = unary_increment_machine();
    let mut m2 = unary_increment_machine();
    let r1 = m1.run(100).expect("accepting halt");
    let r2 = m2.run(100).expect("accepting halt");
    assert_eq!(r1.content, r2.content);
    assert_eq!(r1.pos, r2.pos);
    assert_eq!(m1.current_state, m2.current_state);
}

#[test]
fn lookup_is_stable_and_first_match_wins() {
    let first = Tuple::new(State::new(0), 'a', 'b', Moves::S, State::new(1));
    let shadowed = Tuple::new(State::new(0), 'a', 'c', Moves::R, State::new(0));
    let rules = vec![first.clone(), shadowed];
    let r1 = lookup(&rules, State::new(0), 'a');
    let r2 = lookup(&rules, State::new(0), 'a');
    assert_eq!(r1, Some(first));
    assert_eq!(r1, r2);
    assert_eq!(lookup(&rules, State::new(1), 'a'), None);
    assert_eq!(lookup(&rules, State::new(0), 'x'), None);
}

#[test]
fn step_applies_one_transition() {
    let mut m = unary_increment_machine();
    let halted = m.step();
    assert!(!halted);
    assert_eq!(m.tape.content, vec!['1', '1']);
    assert_eq!(m.tape.pos, 1);
    assert_eq!(m.current_state, State::new(0));
}

#[test]
fn step_reports_halt_without_changing_anything() {
    let states = create_states(1);
    let tape = Tape::new(vec!['a'], '$');
    let mut m = TuringMachine::new(
        states,
        State::new(0),
        vec![State::new(0)],
        vec![],
        vec![],
        '$',
        tape,
    );
    let halted = m.step();
    assert!(halted);
    assert_eq!(m.tape.content, vec!['a']);
    assert_eq!(m.current_state, State::new(0));
}

#[test]
fn rerun_after_halt_resumes_from_halted_configuration() {
    let mut m = unary_increment_machine();
    let first = m.run(100).expect("accepting halt");
    let second = m.run(100).expect("still halted in a final state");
    assert_eq!(first.content, second.content);
    assert_eq!(first.pos, second.pos);
}
