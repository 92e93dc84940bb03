use vstd::prelude::*;

use crate::tape::Moves;

verus! {

/// An opaque, non-negative state identifier; equality is by identifier value.
#[derive(Clone, Copy, Debug, PartialEq, Eq, Structural)]
pub struct State {
    pub id: u32,
}

impl State {
    pub fn new(id: u32) -> (s: State)
        ensures
            s == (State { id }),
    {
        State { id }
    }
}

/// One transition rule: in `state`, reading `read_symb`, write `write_symb`,
/// move the head by `_move`, and enter `next_state`.
#[derive(Clone, Copy, Debug, PartialEq, Eq, Structural)]
pub struct Tuple {
    pub state: State,
    pub read_symb: char,
    pub write_symb: char,
    pub _move: Moves,
    pub next_state: State,
}

impl Tuple {
    pub fn new(state: State, read_symb: char, write_symb: char, _move: Moves, next_state: State)
        -> (t: Tuple)
        ensures
            t == (Tuple { state, read_symb, write_symb, _move, next_state }),
    {
        Tuple { state, read_symb, write_symb, _move, next_state }
    }
}

/// First rule at index `i` or later whose state and read symbol both match.
pub open spec fn lookup_from(rules: Seq<Tuple>, i: int, state: State, symbol: char) -> Option<
    Tuple,
>
    decreases rules.len() - i,
{
    if i < 0 || i >= rules.len() {
        None
    } else if rules[i].state == state && rules[i].read_symb == symbol {
        Some(rules[i])
    } else {
        lookup_from(rules, i + 1, state, symbol)
    }
}

/// First rule, in insertion order, whose state and read symbol both match the
/// arguments; `None` when no rule matches. A pure function of the rule list
/// and the `(state, symbol)` pair.
pub open spec fn lookup_spec(rules: Seq<Tuple>, state: State, symbol: char) -> Option<Tuple> {
    lookup_from(rules, 0, state, symbol)
}

/// A matched rule is one of the table's rules, matches the queried pair, and
/// is the first such rule: no earlier rule matches.
pub proof fn lemma_lookup_found(rules: Seq<Tuple>, i: int, state: State, symbol: char)
    requires
        0 <= i <= rules.len(),
        lookup_from(rules, i, state, symbol) is Some,
    ensures
        exists|j: int|
            {
                &&& i <= j < rules.len()
                &&& lookup_from(rules, i, state, symbol) == Some(rules[j])
                &&& rules[j].state == state
                &&& rules[j].read_symb == symbol
                &&& forall|k: int|
                    i <= k < j ==> !(rules[k].state == state && rules[k].read_symb == symbol)
            },
    decreases rules.len() - i,
{
    if rules[i].state == state && rules[i].read_symb == symbol {
        assert(lookup_from(rules, i, state, symbol) == Some(rules[i]));
    } else {
        lemma_lookup_found(rules, i + 1, state, symbol);
        let j = choose|j: int|
            {
                &&& i + 1 <= j < rules.len()
                &&& lookup_from(rules, i + 1, state, symbol) == Some(rules[j])
                &&& rules[j].state == state
                &&& rules[j].read_symb == symbol
                &&& forall|k: int|
                    i + 1 <= k < j ==> !(rules[k].state == state && rules[k].read_symb == symbol)
            };
        assert(forall|k: int|
            i <= k < j ==> !(rules[k].state == state && rules[k].read_symb == symbol));
    }
}

/// First-match lookup over a rule list, in insertion order.
pub fn lookup(rules: &Vec<Tuple>, state: State, symbol: char) -> (r: Option<Tuple>)
    ensures
        r == lookup_spec(rules@, state, symbol),
{
    let mut i: usize = 0;
    while i < rules.len()
        invariant
            i <= rules.len(),
            lookup_spec(rules@, state, symbol) == lookup_from(rules@, i as int, state, symbol),
        decreases rules.len() - i,
    {
        let t = rules[i];
        if t.state == state && t.read_symb == symbol {
            return Some(t);
        }
        i = i + 1;
    }
    None
}

} // verus!
