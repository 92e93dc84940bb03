use vstd::prelude::*;

use crate::rules::{lookup, lookup_spec, lemma_lookup_found, State, Tuple};
use crate::tape::{Tape, TapeModel};

verus! {

/// The run-time configuration of a machine: its tape and its current state.
#[verifier::ext_equal]
pub struct Config {
    pub tape: TapeModel,
    pub state: State,
}

/// One execution step: look up the first rule matching the current state and
/// the symbol under the head; if none matches the machine halts (`None`),
/// otherwise write the rule's symbol, move the head, and enter the next state.
pub open spec fn step_spec(rules: Seq<Tuple>, c: Config) -> Option<Config> {
    match lookup_spec(rules, c.state, c.tape.read()) {
        None => None,
        Some(t) => Some(
            Config { tape: c.tape.write(t.write_symb).moved(t._move), state: t.next_state },
        ),
    }
}

/// No rule matches the configuration: the run loop stops here.
pub open spec fn is_halted(rules: Seq<Tuple>, c: Config) -> bool {
    step_spec(rules, c) is None
}

/// The configuration after exactly `n` steps, or `None` when the machine
/// halts strictly before taking `n` steps.
pub open spec fn steps_spec(rules: Seq<Tuple>, c: Config, n: nat) -> Option<Config>
    decreases n,
{
    if n == 0 {
        Some(c)
    } else {
        match step_spec(rules, c) {
            None => None,
            Some(c2) => steps_spec(rules, c2, (n - 1) as nat),
        }
    }
}

/// The halting configuration reached from `c` within at most `n` steps, or
/// `None` when the machine is still running after `n` steps.
pub open spec fn halting_config_within(rules: Seq<Tuple>, c: Config, n: nat) -> Option<Config>
    decreases n,
{
    if is_halted(rules, c) {
        Some(c)
    } else if n == 0 {
        None
    } else {
        match step_spec(rules, c) {
            None => None,
            Some(c2) => halting_config_within(rules, c2, (n - 1) as nat),
        }
    }
}

/// Taking one more step extends a run by one.
pub proof fn lemma_steps_snoc(rules: Seq<Tuple>, c: Config, n: nat, c1: Config, c2: Config)
    requires
        steps_spec(rules, c, n) == Some(c1),
        step_spec(rules, c1) == Some(c2),
    ensures
        steps_spec(rules, c, n + 1) == Some(c2),
    decreases n,
{
    reveal_with_fuel(steps_spec, 2);
    if n > 0 {
        let cm = step_spec(rules, c)->Some_0;
        lemma_steps_snoc(rules, cm, (n - 1) as nat, c1, c2);
    }
}

/// A halting configuration found within `n` steps is reached from `c` by some
/// `k <= n` steps and has no successor.
pub proof fn lemma_halting_config_reached(rules: Seq<Tuple>, c: Config, n: nat)
    requires
        halting_config_within(rules, c, n) is Some,
    ensures
        exists|k: nat|
            k <= n && steps_spec(rules, c, k) == halting_config_within(rules, c, n) && is_halted(
                rules,
                halting_config_within(rules, c, n)->Some_0,
            ),
    decreases n,
{
    if is_halted(rules, c) {
        assert(steps_spec(rules, c, 0) == halting_config_within(rules, c, n));
    } else {
        let c2 = step_spec(rules, c)->Some_0;
        lemma_halting_config_reached(rules, c2, (n - 1) as nat);
        let k2 = choose|k2: nat|
            k2 <= n - 1 && steps_spec(rules, c2, k2) == halting_config_within(
                rules,
                c2,
                (n - 1) as nat,
            ) && is_halted(rules, halting_config_within(rules, c2, (n - 1) as nat)->Some_0);
        assert(steps_spec(rules, c, k2 + 1) == steps_spec(rules, c2, k2));
    }
}

/// Law: the halting configuration does not depend on the step bound. A
/// machine that halts within some bound halts with the same configuration
/// under every larger bound.
pub proof fn lemma_halting_bound_irrelevant(rules: Seq<Tuple>, c: Config, n: nat, m: nat)
    requires
        halting_config_within(rules, c, n) is Some,
        n <= m,
    ensures
        halting_config_within(rules, c, m) == halting_config_within(rules, c, n),
    decreases n,
{
    if !is_halted(rules, c) {
        let c2 = step_spec(rules, c)->Some_0;
        lemma_halting_bound_irrelevant(rules, c2, (n - 1) as nat, (m - 1) as nat);
    }
}

/// Law (determinism): re-running a machine from the same configuration gives
/// the same halting configuration — the same tape and the same halting state —
/// whatever step bounds the two runs were given.
pub proof fn lemma_run_deterministic(rules: Seq<Tuple>, c: Config, n: nat, m: nat)
    requires
        halting_config_within(rules, c, n) is Some,
        halting_config_within(rules, c, m) is Some,
    ensures
        halting_config_within(rules, c, n) == halting_config_within(rules, c, m),
{
    if n <= m {
        lemma_halting_bound_irrelevant(rules, c, n, m);
    } else {
        lemma_halting_bound_irrelevant(rules, c, m, n);
    }
}

/// Failure outcomes of a bounded run.
#[derive(Debug)]
pub enum RunError {
    /// The machine halted, but its current state is not a final state.
    HaltedNonFinal(Tape),
    /// The machine was still running when the step bound ran out.
    StepLimitReached,
}

/// A single-tape Turing machine: its full static description plus the mutable
/// run-time state (tape contents and current state).
pub struct TuringMachine {
    pub states: Vec<State>,
    pub initial_state: State,
    pub final_states: Vec<State>,
    pub input_alph: Vec<char>,
    pub tuples: Vec<Tuple>,
    pub empty_space: char,
    pub tape: Tape,
    pub current_state: State,
}

impl TuringMachine {
    /// The ordered transition rules.
    pub open spec fn spec_rules(&self) -> Seq<Tuple> {
        self.tuples@
    }

    /// The current run-time configuration.
    pub open spec fn spec_config(&self) -> Config {
        Config { tape: self.tape@, state: self.current_state }
    }

    /// The declared state set, as the ordered sequence it was supplied in.
    pub open spec fn spec_states(&self) -> Seq<State> {
        self.states@
    }

    pub open spec fn spec_initial(&self) -> State {
        self.initial_state
    }

    pub open spec fn spec_final_states(&self) -> Seq<State> {
        self.final_states@
    }

    pub open spec fn spec_alphabet(&self) -> Seq<char> {
        self.input_alph@
    }

    pub open spec fn spec_blank(&self) -> char {
        self.empty_space
    }

    /// The whole static description agrees between two machine values; only
    /// the run-time configuration may differ.
    pub open spec fn same_description(&self, other: &TuringMachine) -> bool {
        &&& self.states@ == other.states@
        &&& self.initial_state == other.initial_state
        &&& self.final_states@ == other.final_states@
        &&& self.input_alph@ == other.input_alph@
        &&& self.tuples@ == other.tuples@
        &&& self.empty_space == other.empty_space
    }

    /// Machine invariant: the head is on a materialized cell, the initial and
    /// current states belong to the declared state set, every final state
    /// belongs to it, and every rule connects states of the set.
    pub open spec fn wf(&self) -> bool {
        &&& self.tape@.wf()
        &&& self.states@.contains(self.initial_state)
        &&& self.states@.contains(self.current_state)
        &&& forall|i: int|
            0 <= i < self.final_states@.len() ==> self.states@.contains(#[trigger] self.final_states@[i])
        &&& forall|i: int|
            0 <= i < self.tuples@.len() ==> self.states@.contains(#[trigger] self.tuples@[i].state)
                && self.states@.contains(self.tuples@[i].next_state)
    }

    /// Build a machine from its full static description; the current state
    /// starts at the initial state and the tape is taken as supplied.
    pub fn new(
        states: Vec<State>,
        initial_state: State,
        final_states: Vec<State>,
        input_alph: Vec<char>,
        tuples: Vec<Tuple>,
        empty_space: char,
        tape: Tape,
    ) -> (m: TuringMachine)
        requires
            tape.wf(),
            states@.contains(initial_state),
            forall|i: int| 0 <= i < final_states@.len() ==> states@.contains(#[trigger] final_states@[i]),
            forall|i: int|
                0 <= i < tuples@.len() ==> states@.contains(#[trigger] tuples@[i].state)
                    && states@.contains(tuples@[i].next_state),
        ensures
            m.wf(),
            m.spec_states() == states@,
            m.spec_initial() == initial_state,
            m.spec_final_states() == final_states@,
            m.spec_alphabet() == input_alph@,
            m.spec_rules() == tuples@,
            m.spec_blank() == empty_space,
            m.spec_config() == (Config { tape: tape@, state: initial_state }),
    {
        let current_state = State::new(initial_state.id);
        TuringMachine {
            states,
            initial_state,
            final_states,
            input_alph,
            tuples,
            empty_space,
            tape,
            current_state,
        }
    }

    /// First-match lookup in this machine's transition table: a pure function
    /// of the table and the `(state, symbol)` pair, so repeated calls return
    /// the same rule.
    pub fn lookup(&self, state: State, symbol: char) -> (r: Option<Tuple>)
        ensures
            r == lookup_spec(self.spec_rules(), state, symbol),
    {
        lookup(&self.tuples, state, symbol)
    }

    /// One execution step: read, look up, and either halt (returning `true`)
    /// or apply the first matching rule (returning `false`).
    pub fn step(&mut self) -> (halted_now: bool)
        requires
            old(self).wf(),
        ensures
            final(self).wf(),
            old(self).same_description(final(self)),
            (match step_spec(old(self).spec_rules(), old(self).spec_config()) {
                None => halted_now && final(self).spec_config() == old(self).spec_config(),
                Some(c2) => !halted_now && final(self).spec_config() == c2,
            }),
    {
        let current_char = self.tape.get_char_at_pos();
        let rule = lookup(&self.tuples, self.current_state, current_char);
        match rule {
            None => true,
            Some(t) => {
                proof {
                    lemma_lookup_found(self.tuples@, 0, self.current_state, current_char);
                }
                self.tape.set_char_at_pos(t.write_symb);
                self.tape.move_head(t._move);
                self.current_state = t.next_state;
                false
            },
        }
    }

    fn halt_outcome(&self) -> (r: Result<Tape, RunError>)
        ensures
            (match r {
                Ok(t) => self.spec_final_states().contains(self.spec_config().state) && t@
                    == self.spec_config().tape,
                Err(RunError::HaltedNonFinal(t)) => !self.spec_final_states().contains(
                    self.spec_config().state,
                ) && t@ == self.spec_config().tape,
                Err(RunError::StepLimitReached) => false,
            }),
    {
        let mut i: usize = 0;
        let mut found = false;
        while i < self.final_states.len()
            invariant
                i <= self.final_states@.len(),
                found <==> exists|j: int|
                    0 <= j < i && self.final_states@[j] == self.current_state,
            decreases self.final_states@.len() - i,
        {
            if self.final_states[i] == self.current_state {
                found = true;
            }
            i = i + 1;
        }
        let t = self.tape.duplicate();
        if found {
            Ok(t)
        } else {
            Err(RunError::HaltedNonFinal(t))
        }
    }

    /// Execute steps until the machine halts or `max_steps` steps have been
    /// taken. When the machine halts within the bound, the result reports the
    /// final tape: as success when the halting state is a final state, and as
    /// a distinct non-final-halt outcome otherwise. When the bound runs out
    /// first, the machine keeps the configuration it reached and the step
    /// limit is reported.
    ///
    /// Whether a machine halts at all is undecidable, so a caller wanting an
    /// unbounded run must pick its own policy, by calling `step` in a loop it
    /// controls or by retrying with larger bounds; re-running after a halt
    /// resumes from the halted configuration rather than a fresh one.
    pub fn run(&mut self, max_steps: u64) -> (r: Result<Tape, RunError>)
        requires
            old(self).wf(),
        ensures
            final(self).wf(),
            old(self).same_description(final(self)),
            (match halting_config_within(
                old(self).spec_rules(),
                old(self).spec_config(),
                max_steps as nat,
            ) {
                Some(h) => {
                    &&& final(self).spec_config() == h
                    &&& (match r {
                        Ok(t) => old(self).spec_final_states().contains(h.state) && t@ == h.tape,
                        Err(RunError::HaltedNonFinal(t)) => !old(self).spec_final_states().contains(
                            h.state,
                        ) && t@ == h.tape,
                        Err(RunError::StepLimitReached) => false,
                    })
                },
                None => {
                    &&& Some(final(self).spec_config()) == steps_spec(
                        old(self).spec_rules(),
                        old(self).spec_config(),
                        max_steps as nat,
                    )
                    &&& r matches Err(RunError::StepLimitReached)
                },
            }),
    {
        let ghost rules0 = self.spec_rules();
        let ghost c0 = self.spec_config();
        let mut steps_taken: u64 = 0;
        while steps_taken < max_steps
            invariant
                self.wf(),
                old(self).same_description(self),
                steps_taken <= max_steps,
                rules0 == old(self).spec_rules(),
                c0 == old(self).spec_config(),
                steps_spec(rules0, c0, steps_taken as nat) == Some(self.spec_config()),
                halting_config_within(rules0, c0, max_steps as nat) == halting_config_within(
                    rules0,
                    self.spec_config(),
                    (max_steps - steps_taken) as nat,
                ),
            decreases max_steps - steps_taken,
        {
            let ghost before = self.spec_config();
            let halted_now = self.step();
            if halted_now {
                return self.halt_outcome();
            }
            proof {
                let c2 = step_spec(rules0, before)->Some_0;
                lemma_steps_snoc(rules0, c0, steps_taken as nat, before, c2);
            }
            steps_taken = steps_taken + 1;
        }
        let current_char = self.tape.get_char_at_pos();
        let rule = self.lookup(self.current_state, current_char);
        match rule {
            None => self.halt_outcome(),
            Some(_) => Err(RunError::StepLimitReached),
        }
    }
}

} // verus!
