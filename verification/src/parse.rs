use vstd::prelude::*;
use vstd::string::StrSliceExecFns;

use itertools::Itertools;

use crate::machine::{Config, TuringMachine};
use crate::rules::{State, Tuple};
use crate::tape::{Moves, Tape, TapeModel};

verus! {

/// Why a textual definition was rejected; construction aborts on the first
/// fault and no partial machine is returned.
#[derive(Clone, Copy, Debug, PartialEq, Eq, Structural)]
pub enum ParseError {
    /// An identifier is empty, contains a non-digit, or exceeds the id range.
    MalformedNumber,
    /// A rule line does not have exactly five whitespace-separated tokens.
    WrongTokenCount,
    /// A move token other than `L`, `R` or `S`.
    UnknownMove,
    /// A machine definition with fewer than its four header lines.
    MissingHeader,
    /// An empty blank-symbol line.
    MissingBlank,
    /// A state id outside the declared state set.
    StateOutOfRange,
    /// An empty tape: the head needs at least one materialized cell.
    EmptyTape,
}

pub open spec fn is_digit(c: char) -> bool {
    48 <= c as u32 <= 57
}

pub open spec fn digit_val(c: char) -> nat {
    (c as u32 - 48) as nat
}

/// The numeric value of a digit sequence read in base ten.
pub open spec fn digits_val(s: Seq<char>) -> nat
    decreases s.len(),
{
    if s.len() == 0 {
        0
    } else {
        digits_val(s.drop_last()) * 10 + digit_val(s.last())
    }
}

pub open spec fn all_digits(s: Seq<char>) -> bool {
    forall|i: int| 0 <= i < s.len() ==> is_digit(#[trigger] s[i])
}

/// The text is a well-formed non-negative identifier that fits the id range:
/// non-empty, digits only, value at most `u32::MAX`.
pub open spec fn is_u32_text(s: Seq<char>) -> bool {
    s.len() > 0 && all_digits(s) && digits_val(s) <= u32::MAX
}

/// Appending digits never decreases the numeric value of a prefix.
proof fn lemma_digits_val_prefix_le(s: Seq<char>, i: int, j: int)
    requires
        0 <= i <= j <= s.len(),
    ensures
        digits_val(s.subrange(0, i)) <= digits_val(s.subrange(0, j)),
    decreases j - i,
{
    if i < j {
        lemma_digits_val_prefix_le(s, i, j - 1);
        assert(s.subrange(0, j).drop_last() =~= s.subrange(0, j - 1));
    }
}

/// Parse a base-ten identifier. Returns its value exactly when the text is
/// non-empty, all digits, and within the id range; rejects it otherwise.
pub fn parse_u32(s: &Vec<char>) -> (r: Result<u32, ParseError>)
    ensures
        (match r {
            Ok(v) => is_u32_text(s@) && v == digits_val(s@),
            Err(e) => e == ParseError::MalformedNumber && !is_u32_text(s@),
        }),
{
    if s.len() == 0 {
        return Err(ParseError::MalformedNumber);
    }
    let mut acc: u64 = 0;
    let mut i: usize = 0;
    while i < s.len()
        invariant
            i <= s@.len(),
            forall|j: int| 0 <= j < i ==> is_digit(#[trigger] s@[j]),
            acc as nat == digits_val(s@.subrange(0, i as int)),
            acc <= u32::MAX,
        decreases s@.len() - i,
    {
        let c = s[i];
        let d = c as u32;
        if d < 48 || d > 57 {
            assert(!is_digit(s@[i as int]));
            return Err(ParseError::MalformedNumber);
        }
        let acc2: u64 = acc * 10 + (d - 48) as u64;
        proof {
            assert(s@.subrange(0, (i + 1) as int).drop_last() =~= s@.subrange(0, i as int));
            assert(s@.subrange(0, (i + 1) as int).last() == s@[i as int]);
        }
        if acc2 > u32::MAX as u64 {
            proof {
                lemma_digits_val_prefix_le(s@, (i + 1) as int, s@.len() as int);
                assert(s@.subrange(0, s@.len() as int) =~= s@);
            }
            return Err(ParseError::MalformedNumber);
        }
        acc = acc2;
        i = i + 1;
    }
    proof {
        assert(s@.subrange(0, s@.len() as int) =~= s@);
    }
    Ok(acc as u32)
}

/// The characters of a string slice, in order.
pub fn chars_of(s: &str) -> (r: Vec<char>)
    ensures
        r@ == s@,
{
    let n = s.unicode_len();
    let mut r: Vec<char> = Vec::new();
    let mut i: usize = 0;
    while i < n
        invariant
            i <= n,
            n == s@.len(),
            r@ =~= s@.subrange(0, i as int),
        decreases n - i,
    {
        r.push(s.get_char(i));
        i = i + 1;
    }
    proof {
        assert(r@ =~= s@);
    }
    r
}

pub open spec fn is_space(c: char) -> bool {
    c == ' ' || c == '\t'
}

/// The end of the token that starts at `i`: the first index at or after `i`
/// that is past the end or holds a whitespace character.
pub open spec fn token_end(s: Seq<char>, i: int) -> int
    decreases s.len() - i,
{
    if i < 0 || i >= s.len() || is_space(s[i]) {
        i
    } else {
        token_end(s, i + 1)
    }
}

proof fn lemma_token_end_bounds(s: Seq<char>, i: int)
    requires
        0 <= i <= s.len(),
    ensures
        i <= token_end(s, i) <= s.len(),
    decreases s.len() - i,
{
    if i < s.len() && !is_space(s[i]) {
        lemma_token_end_bounds(s, i + 1);
    }
}

/// The whitespace-separated tokens of `s` from index `i` on: maximal runs of
/// non-whitespace characters, in order; whitespace runs separate them and are
/// dropped, so every token is non-empty.
pub open spec fn tokens_from(s: Seq<char>, i: int) -> Seq<Seq<char>>
    decreases s.len() - i,
    via tokens_from_dec
{
    if i < 0 || i >= s.len() {
        Seq::empty()
    } else if is_space(s[i]) {
        tokens_from(s, i + 1)
    } else {
        seq![s.subrange(i, token_end(s, i))] + tokens_from(s, token_end(s, i))
    }
}

#[via_fn]
proof fn tokens_from_dec(s: Seq<char>, i: int) {
    if 0 <= i < s.len() && !is_space(s[i]) {
        lemma_token_end_bounds(s, i + 1);
    }
}

/// The whitespace-separated tokens of a whole line.
pub open spec fn tokens_of(s: Seq<char>) -> Seq<Seq<char>> {
    tokens_from(s, 0)
}

/// Split a line into its whitespace-separated tokens.
pub fn split_tokens(line: &Vec<char>) -> (r: Vec<Vec<char>>)
    ensures
        r.deep_view() == tokens_of(line@),
{
    let mut r: Vec<Vec<char>> = Vec::new();
    let mut i: usize = 0;
    while i < line.len()
        invariant
            i <= line@.len(),
            r.deep_view() + tokens_from(line@, i as int) =~= tokens_of(line@),
        decreases line@.len() - i,
    {
        let c = line[i];
        if c == ' ' || c == '\t' {
            i = i + 1;
        } else {
            let ghost start = i as int;
            let mut tok: Vec<char> = Vec::new();
            while i < line.len() && line[i] != ' ' && line[i] != '\t'
                invariant
                    0 <= start <= i <= line@.len(),
                    tok@ =~= line@.subrange(start, i as int),
                    token_end(line@, start) == token_end(line@, i as int),
                decreases line@.len() - i,
            {
                tok.push(line[i]);
                i = i + 1;
            }
            proof {
                assert(token_end(line@, i as int) == i as int);
                assert(tokens_from(line@, start) == seq![line@.subrange(start, i as int)]
                    + tokens_from(line@, i as int));
            }
            let ghost old_deep = r.deep_view();
            let ghost tv = tok.deep_view();
            proof {
                assert(tv =~= line@.subrange(start, i as int));
            }
            r.push(tok);
            proof {
                assert(r.deep_view() =~= old_deep + seq![tv]);
                assert(r.deep_view() + tokens_from(line@, i as int) =~= tokens_of(line@));
            }
        }
    }
    proof {
        assert(r.deep_view() =~= tokens_of(line@));
    }
    r
}

/// The end of the comma-separated piece that starts at `i`: the first index at
/// or after `i` that is past the end or holds a comma.
pub open spec fn piece_end(s: Seq<char>, i: int) -> int
    decreases s.len() - i,
{
    if i < 0 || i >= s.len() || s[i] == ',' {
        i
    } else {
        piece_end(s, i + 1)
    }
}

proof fn lemma_piece_end_bounds(s: Seq<char>, i: int)
    requires
        0 <= i <= s.len(),
    ensures
        i <= piece_end(s, i) <= s.len(),
    decreases s.len() - i,
{
    if i < s.len() && s[i] != ',' {
        lemma_piece_end_bounds(s, i + 1);
    }
}

/// The comma-separated pieces of `s` from index `i` on. Every comma separates
/// two pieces, so pieces can be empty and an empty text has one empty piece.
pub open spec fn pieces_from(s: Seq<char>, i: int) -> Seq<Seq<char>>
    decreases s.len() - i,
    via pieces_from_dec
{
    if i < 0 || i > s.len() {
        Seq::empty()
    } else {
        let e = piece_end(s, i);
        if e >= s.len() {
            seq![s.subrange(i, s.len() as int)]
        } else {
            seq![s.subrange(i, e)] + pieces_from(s, e + 1)
        }
    }
}

#[via_fn]
proof fn pieces_from_dec(s: Seq<char>, i: int) {
    if 0 <= i <= s.len() {
        lemma_piece_end_bounds(s, i);
    }
}

/// The comma-separated pieces of a whole line.
pub open spec fn csv_pieces(s: Seq<char>) -> Seq<Seq<char>> {
    pieces_from(s, 0)
}

/// Split a line at every comma, keeping empty pieces.
pub fn split_commas(line: &Vec<char>) -> (r: Vec<Vec<char>>)
    ensures
        r.deep_view() == csv_pieces(line@),
{
    let mut r: Vec<Vec<char>> = Vec::new();
    let mut i: usize = 0;
    let mut piece: Vec<char> = Vec::new();
    let ghost mut start = 0int;
    while i < line.len()
        invariant
            0 <= start <= i <= line@.len(),
            piece@ =~= line@.subrange(start, i as int),
            piece_end(line@, start) == piece_end(line@, i as int),
            r.deep_view() + pieces_from(line@, start) =~= csv_pieces(line@),
        decreases line@.len() - i,
    {
        let c = line[i];
        if c == ',' {
            let ghost old_start = start;
            proof {
                assert(piece_end(line@, i as int) == i as int);
                assert(pieces_from(line@, old_start) == seq![line@.subrange(old_start, i as int)]
                    + pieces_from(line@, i + 1));
            }
            let ghost old_deep = r.deep_view();
            let ghost pv = piece.deep_view();
            proof {
                assert(pv =~= line@.subrange(old_start, i as int));
            }
            r.push(piece);
            piece = Vec::new();
            proof {
                start = i + 1;
                assert(r.deep_view() =~= old_deep + seq![pv]);
                assert(r.deep_view() + pieces_from(line@, start) =~= csv_pieces(line@));
            }
        } else {
            piece.push(c);
        }
        i = i + 1;
    }
    proof {
        assert(piece_end(line@, i as int) == i as int);
        assert(pieces_from(line@, start) == seq![line@.subrange(start, line@.len() as int)]);
    }
    let ghost old_deep = r.deep_view();
    let ghost pv = piece.deep_view();
    proof {
        assert(pv =~= line@.subrange(start, line@.len() as int));
    }
    r.push(piece);
    proof {
        assert(r.deep_view() =~= old_deep + seq![pv]);
        assert(r.deep_view() =~= csv_pieces(line@));
    }
    r
}

/// The ordered state set with identifiers `0 .. count`.
pub open spec fn state_seq(count: nat) -> Seq<State> {
    Seq::new(count, |i: int| State { id: i as u32 })
}

/// The declared state set contains exactly the states with id below the count.
pub proof fn lemma_state_seq_contains(count: nat, s: State)
    ensures
        state_seq(count).contains(s) <==> s.id < count,
{
    if s.id < count {
        assert(state_seq(count)[s.id as int] == s);
    }
}

/// Build the ordered state set with ids `0 .. n_states`.
pub fn create_states(n_states: u32) -> (r: Vec<State>)
    ensures
        r@ == state_seq(n_states as nat),
{
    let mut r: Vec<State> = Vec::new();
    let mut i: u32 = 0;
    while i < n_states
        invariant
            i <= n_states,
            r@ =~= state_seq(i as nat),
        decreases n_states - i,
    {
        r.push(State::new(i));
        i = i + 1;
    }
    proof {
        assert(r@ =~= state_seq(n_states as nat));
    }
    r
}

/// Every whitespace-separated token is a non-empty run of characters.
proof fn lemma_tokens_nonempty(s: Seq<char>, i: int)
    requires
        0 <= i <= s.len(),
    ensures
        forall|k: int| 0 <= k < tokens_from(s, i).len() ==> (#[trigger] tokens_from(s, i)[k]).len()
            > 0,
    decreases s.len() - i,
{
    if i >= s.len() {
        assert(tokens_from(s, i).len() == 0);
    } else {
        if is_space(s[i]) {
            lemma_tokens_nonempty(s, i + 1);
            assert(tokens_from(s, i) == tokens_from(s, i + 1));
            assert forall|k: int| 0 <= k < tokens_from(s, i).len() implies (#[trigger] tokens_from(
                s,
                i,
            )[k]).len() > 0 by {
                assert(tokens_from(s, i)[k] == tokens_from(s, i + 1)[k]);
            }
        } else {
            lemma_token_end_bounds(s, i + 1);
            lemma_tokens_nonempty(s, token_end(s, i));
            assert(token_end(s, i) == token_end(s, i + 1));
            assert forall|k: int| 0 <= k < tokens_from(s, i).len() implies (#[trigger] tokens_from(
                s,
                i,
            )[k]).len() > 0 by {
                if k == 0 {
                    assert(tokens_from(s, i)[0] == s.subrange(i, token_end(s, i)));
                } else {
                    assert(tokens_from(s, i)[k] == tokens_from(s, token_end(s, i))[k - 1]);
                }
            }
        }
    }
}

/// Each element of the deep view of a vector of character vectors is the view
/// of the corresponding element.
proof fn lemma_deep_view_elems(v: Vec<Vec<char>>)
    ensures
        v.deep_view().len() == v@.len(),
        forall|k: int| 0 <= k < v@.len() ==> #[trigger] v.deep_view()[k] == v@[k]@,
{
    assert forall|k: int| 0 <= k < v@.len() implies #[trigger] v.deep_view()[k] == v@[k]@ by {
        assert(v.deep_view()[k] =~= v@[k]@);
    }
}

/// The movement named by a move token: exactly `L`, `R` or `S`.
pub open spec fn move_token(s: Seq<char>) -> Option<Moves> {
    if s.len() == 1 && s[0] == 'L' {
        Some(Moves::L)
    } else if s.len() == 1 && s[0] == 'R' {
        Some(Moves::R)
    } else if s.len() == 1 && s[0] == 'S' {
        Some(Moves::S)
    } else {
        None
    }
}

/// The rule encoded by the five tokens `state read write move next_state`,
/// or the first fault found: wrong token count, then a malformed state id,
/// then an unrecognized move token, then a malformed next-state id. The read
/// and write symbols are the first characters of their tokens.
pub open spec fn parse_rule_tokens(toks: Seq<Seq<char>>) -> Result<Tuple, ParseError> {
    if toks.len() != 5 {
        Err(ParseError::WrongTokenCount)
    } else if !is_u32_text(toks[0]) {
        Err(ParseError::MalformedNumber)
    } else {
        match move_token(toks[3]) {
            None => Err(ParseError::UnknownMove),
            Some(mv) => if !is_u32_text(toks[4]) {
                Err(ParseError::MalformedNumber)
            } else {
                Ok(
                    Tuple {
                        state: State { id: digits_val(toks[0]) as u32 },
                        read_symb: toks[1][0],
                        write_symb: toks[2][0],
                        _move: mv,
                        next_state: State { id: digits_val(toks[4]) as u32 },
                    },
                )
            },
        }
    }
}

/// The rule encoded by a whole definition line.
pub open spec fn parse_rule_spec(line: Seq<char>) -> Result<Tuple, ParseError> {
    parse_rule_tokens(tokens_of(line))
}

fn rule_from_tokens(toks: &Vec<Vec<char>>) -> (r: Result<Tuple, ParseError>)
    requires
        forall|k: int| 0 <= k < toks.deep_view().len() ==> (#[trigger] toks.deep_view()[k]).len()
            > 0,
    ensures
        r == parse_rule_tokens(toks.deep_view()),
{
    proof {
        lemma_deep_view_elems(*toks);
    }
    if toks.len() != 5 {
        return Err(ParseError::WrongTokenCount);
    }
    let state_id = match parse_u32(&toks[0]) {
        Ok(v) => v,
        Err(e) => {
            return Err(e);
        },
    };
    let mt = &toks[3];
    let mv = if mt.len() == 1 && mt[0] == 'L' {
        Moves::L
    } else if mt.len() == 1 && mt[0] == 'R' {
        Moves::R
    } else if mt.len() == 1 && mt[0] == 'S' {
        Moves::S
    } else {
        return Err(ParseError::UnknownMove);
    };
    let next_id = match parse_u32(&toks[4]) {
        Ok(v) => v,
        Err(e) => {
            return Err(e);
        },
    };
    assert(toks.deep_view()[1].len() > 0);
    assert(toks.deep_view()[2].len() > 0);
    let read_symb = toks[1][0];
    let write_symb = toks[2][0];
    Ok(Tuple { state: State { id: state_id }, read_symb, write_symb, _move: mv, next_state: State { id: next_id } })
}

/// Parse one rule line of the form `state read write move next_state`.
pub fn create_tuple(definition: &str) -> (r: Result<Tuple, ParseError>)
    ensures
        r == parse_rule_spec(definition@),
{
    let cs = chars_of(definition);
    let toks = split_tokens(&cs);
    proof {
        lemma_tokens_nonempty(definition@, 0);
    }
    rule_from_tokens(&toks)
}

/// All pieces of a final-state list are well-formed identifiers.
pub open spec fn finals_ok(pieces: Seq<Seq<char>>) -> bool {
    forall|i: int| 0 <= i < pieces.len() ==> is_u32_text(#[trigger] pieces[i])
}

/// The final states named by a list of identifier texts, in order.
pub open spec fn finals_states(pieces: Seq<Seq<char>>) -> Seq<State> {
    pieces.map_values(|p: Seq<char>| State { id: digits_val(p) as u32 })
}

/// Parse a list of final-state identifiers, already split at the commas.
pub fn parse_final_ids(pieces: &Vec<Vec<char>>) -> (r: Result<Vec<State>, ParseError>)
    ensures
        (match r {
            Ok(v) => finals_ok(pieces.deep_view()) && v@ == finals_states(pieces.deep_view()),
            Err(e) => e == ParseError::MalformedNumber && !finals_ok(pieces.deep_view()),
        }),
{
    let mut out: Vec<State> = Vec::new();
    let mut i: usize = 0;
    while i < pieces.len()
        invariant
            i <= pieces.deep_view().len(),
            pieces.deep_view().len() == pieces@.len(),
            out@.len() == i,
            forall|j: int| 0 <= j < i ==> is_u32_text(#[trigger] pieces.deep_view()[j]),
            forall|j: int| 0 <= j < i ==> out@[j] == (State {
                id: digits_val(pieces.deep_view()[j]) as u32,
            }),
        decreases pieces@.len() - i,
    {
        proof {
            lemma_deep_view_elems(*pieces);
        }
        match parse_u32(&pieces[i]) {
            Ok(v) => {
                out.push(State::new(v));
            },
            Err(e) => {
                assert(!is_u32_text(pieces.deep_view()[i as int]));
                return Err(e);
            },
        }
        i = i + 1;
    }
    proof {
        assert(out@ =~= finals_states(pieces.deep_view()));
    }
    Ok(out)
}

/// Parse final-state identifiers given as separate texts; fails on the first
/// malformed (empty, non-digit, or out-of-range) identifier.
pub fn create_final_states(ids: Vec<&str>) -> (r: Result<Vec<State>, ParseError>)
    ensures
        (match r {
            Ok(v) => finals_ok(ids.deep_view()) && v@ == finals_states(ids.deep_view()),
            Err(e) => e == ParseError::MalformedNumber && !finals_ok(ids.deep_view()),
        }),
{
    let mut pieces: Vec<Vec<char>> = Vec::new();
    let mut i: usize = 0;
    while i < ids.len()
        invariant
            i <= ids@.len(),
            pieces.deep_view() =~= ids.deep_view().subrange(0, i as int),
        decreases ids@.len() - i,
    {
        let p = chars_of(ids[i]);
        let ghost pv = p.deep_view();
        proof {
            assert(pv =~= ids.deep_view()[i as int]);
        }
        let ghost old_deep = pieces.deep_view();
        pieces.push(p);
        proof {
            assert(pieces.deep_view() =~= old_deep + seq![pv]);
            assert(pieces.deep_view() =~= ids.deep_view().subrange(0, i + 1));
        }
        i = i + 1;
    }
    proof {
        assert(pieces.deep_view() =~= ids.deep_view());
    }
    parse_final_ids(&pieces)
}

/// The read and write symbols of the rules, in rule order, read before write.
pub open spec fn rule_symbols(rules: Seq<Tuple>) -> Seq<char>
    decreases rules.len(),
{
    if rules.len() == 0 {
        Seq::empty()
    } else {
        rule_symbols(rules.drop_last()) + seq![rules.last().read_symb, rules.last().write_symb]
    }
}

/// A sequence with its repeated elements dropped: each element appears once,
/// at the position of its first occurrence.
pub open spec fn first_occurrences(s: Seq<char>) -> Seq<char>
    decreases s.len(),
{
    if s.len() == 0 {
        Seq::empty()
    } else {
        let u = first_occurrences(s.drop_last());
        if u.contains(s.last()) {
            u
        } else {
            u.push(s.last())
        }
    }
}

/// Relies on itertools' `unique` iterator adaptor: it filters out elements
/// that were already produced, keeping the first occurrence of each element,
/// in the order of the input.
#[verifier::external_body]
fn unique_chars(v: Vec<char>) -> (r: Vec<char>)
    ensures
        r@ == first_occurrences(v@),
{
    v.into_iter().unique().collect()
}

/// The rules encoded on the lines from index `i` on, or the fault of the
/// first bad line.
pub open spec fn rules_parse(ls: Seq<Seq<char>>, i: int) -> Result<Seq<Tuple>, ParseError>
    decreases ls.len() - i,
{
    if i < 0 || i >= ls.len() {
        Ok(Seq::empty())
    } else {
        match parse_rule_spec(ls[i]) {
            Err(e) => Err(e),
            Ok(t) => match rules_parse(ls, i + 1) {
                Err(e) => Err(e),
                Ok(rest) => Ok(seq![t] + rest),
            },
        }
    }
}

/// The fully parsed content of a machine definition: the declared state set,
/// the initial and final states, the derived input alphabet, the rules, the
/// blank symbol, and the initial tape.
#[verifier::ext_equal]
pub struct LoadedMachine {
    pub states: Seq<State>,
    pub initial: State,
    pub finals: Seq<State>,
    pub alphabet: Seq<char>,
    pub rules: Seq<Tuple>,
    pub blank: char,
    pub tape: TapeModel,
}

/// Every referenced state id lies below the declared state count.
pub open spec fn all_states_declared(
    count: nat,
    initial_id: nat,
    finals: Seq<State>,
    rules: Seq<Tuple>,
) -> bool {
    &&& initial_id < count
    &&& forall|i: int| 0 <= i < finals.len() ==> (#[trigger] finals[i]).id < count
    &&& forall|i: int|
        0 <= i < rules.len() ==> (#[trigger] rules[i]).state.id < count && rules[i].next_state.id
            < count
}

/// The machine described by definition lines and a tape text, or the first
/// fault: too few header lines; a malformed state count, initial id or
/// final-state list; an empty blank line; a bad rule line (in line order); a
/// state id outside the declared set; an empty tape. The header lines are the
/// state count, the initial state id, the comma-separated final-state ids and
/// the blank symbol; every following line is one rule. The input alphabet is
/// derived from the rules' read and write symbols, first occurrences kept in
/// order.
pub open spec fn parse_definition(ls: Seq<Seq<char>>, tp: Seq<char>) -> Result<
    LoadedMachine,
    ParseError,
> {
    if ls.len() < 4 {
        Err(ParseError::MissingHeader)
    } else if !is_u32_text(ls[0]) {
        Err(ParseError::MalformedNumber)
    } else if !is_u32_text(ls[1]) {
        Err(ParseError::MalformedNumber)
    } else if !finals_ok(csv_pieces(ls[2])) {
        Err(ParseError::MalformedNumber)
    } else if ls[3].len() == 0 {
        Err(ParseError::MissingBlank)
    } else {
        match rules_parse(ls, 4) {
            Err(e) => Err(e),
            Ok(rules) => {
                let count = digits_val(ls[0]);
                let initial_id = digits_val(ls[1]);
                let finals = finals_states(csv_pieces(ls[2]));
                let blank = ls[3][0];
                if !all_states_declared(count, initial_id, finals, rules) {
                    Err(ParseError::StateOutOfRange)
                } else if tp.len() == 0 {
                    Err(ParseError::EmptyTape)
                } else {
                    Ok(
                        LoadedMachine {
                            states: state_seq(count),
                            initial: State { id: initial_id as u32 },
                            finals,
                            alphabet: first_occurrences(rule_symbols(rules)),
                            rules,
                            blank,
                            tape: TapeModel { content: tp, pos: 0, blank },
                        },
                    )
                }
            },
        }
    }
}

/// The four header lines were read and parsed to these values.
spec fn header_facts(
    ls: Seq<Seq<char>>,
    n_states: u32,
    initial_id: u32,
    finals: Seq<State>,
    blank: char,
) -> bool {
    &&& ls.len() >= 4
    &&& is_u32_text(ls[0]) && digits_val(ls[0]) == n_states
    &&& is_u32_text(ls[1]) && digits_val(ls[1]) == initial_id
    &&& finals_ok(csv_pieces(ls[2]))
    &&& finals == finals_states(csv_pieces(ls[2]))
    &&& ls[3].len() > 0 && blank == ls[3][0]
}

/// Build a machine from the lines of a machine definition and the text of a
/// tape. All faults abort construction: no partial machine is returned.
pub fn machine_from_definition(lines: &Vec<String>, tape_text: &str) -> (r: Result<
    TuringMachine,
    ParseError,
>)
    ensures
        (match r {
            Ok(m) => (match parse_definition(lines.deep_view(), tape_text@) {
                Ok(d) => {
                    &&& m.wf()
                    &&& m.spec_states() == d.states
                    &&& m.spec_initial() == d.initial
                    &&& m.spec_final_states() == d.finals
                    &&& m.spec_alphabet() == d.alphabet
                    &&& m.spec_rules() == d.rules
                    &&& m.spec_blank() == d.blank
                    &&& m.spec_config() == (Config { tape: d.tape, state: d.initial })
                },
                Err(_) => false,
            }),
            Err(e) => parse_definition(lines.deep_view(), tape_text@) == Err::<
                LoadedMachine,
                ParseError,
            >(e),
        }),
{
    let ghost ls = lines.deep_view();
    if lines.len() < 4 {
        return Err(ParseError::MissingHeader);
    }
    let line0 = chars_of(lines[0].as_str());
    proof {
        assert(line0@ == ls[0]);
    }
    let n_states = match parse_u32(&line0) {
        Ok(v) => v,
        Err(e) => {
            return Err(e);
        },
    };
    let line1 = chars_of(lines[1].as_str());
    proof {
        assert(line1@ == ls[1]);
    }
    let initial_id = match parse_u32(&line1) {
        Ok(v) => v,
        Err(e) => {
            return Err(e);
        },
    };
    let line2 = chars_of(lines[2].as_str());
    proof {
        assert(line2@ == ls[2]);
    }
    let pieces = split_commas(&line2);
    let final_states = match parse_final_ids(&pieces) {
        Ok(v) => v,
        Err(e) => {
            return Err(e);
        },
    };
    let line3 = chars_of(lines[3].as_str());
    proof {
        assert(line3@ == ls[3]);
    }
    if line3.len() == 0 {
        return Err(ParseError::MissingBlank);
    }
    let blank = line3[0];
    let mut tuples: Vec<Tuple> = Vec::new();
    let mut alpha: Vec<char> = Vec::new();
    let mut i: usize = 4;
    while i < lines.len()
        invariant
            4 <= i <= ls.len(),
            ls == lines.deep_view(),
            ls.len() == lines@.len(),
            header_facts(ls, n_states, initial_id, final_states@, blank),
            alpha@ == rule_symbols(tuples@),
            (match rules_parse(ls, i as int) {
                Ok(rest) => rules_parse(ls, 4) == Ok::<Seq<Tuple>, ParseError>(tuples@ + rest),
                Err(e) => rules_parse(ls, 4) == Err::<Seq<Tuple>, ParseError>(e),
            }),
        decreases lines@.len() - i,
    {
        let li = chars_of(lines[i].as_str());
        proof {
            assert(li@ == ls[i as int]);
            lemma_tokens_nonempty(li@, 0);
        }
        let toks = split_tokens(&li);
        let t = match rule_from_tokens(&toks) {
            Ok(t) => t,
            Err(e) => {
                return Err(e);
            },
        };
        alpha.push(t.read_symb);
        alpha.push(t.write_symb);
        let ghost old_tuples = tuples@;
        tuples.push(t);
        proof {
            assert(tuples@.drop_last() =~= old_tuples);
            assert(alpha@ =~= rule_symbols(tuples@));
            if rules_parse(ls, i + 1) is Ok {
                let rest = rules_parse(ls, i + 1)->Ok_0;
                assert(rules_parse(ls, i as int) == Ok::<Seq<Tuple>, ParseError>(seq![t] + rest));
                assert(old_tuples + (seq![t] + rest) =~= tuples@ + rest);
            }
        }
        i = i + 1;
    }
    proof {
        assert(tuples@ + Seq::<Tuple>::empty() =~= tuples@);
    }
    if initial_id >= n_states {
        return Err(ParseError::StateOutOfRange);
    }
    let mut j: usize = 0;
    while j < final_states.len()
        invariant
            j <= final_states@.len(),
            ls == lines.deep_view(),
            header_facts(ls, n_states, initial_id, final_states@, blank),
            rules_parse(ls, 4) == Ok::<Seq<Tuple>, ParseError>(tuples@),
            initial_id < n_states,
            forall|k: int| 0 <= k < j ==> (#[trigger] final_states@[k]).id < n_states,
        decreases final_states@.len() - j,
    {
        if final_states[j].id >= n_states {
            return Err(ParseError::StateOutOfRange);
        }
        j = j + 1;
    }
    let mut j: usize = 0;
    while j < tuples.len()
        invariant
            j <= tuples@.len(),
            ls == lines.deep_view(),
            header_facts(ls, n_states, initial_id, final_states@, blank),
            rules_parse(ls, 4) == Ok::<Seq<Tuple>, ParseError>(tuples@),
            initial_id < n_states,
            forall|k: int| 0 <= k < final_states@.len() ==> (#[trigger] final_states@[k]).id
                < n_states,
            forall|k: int|
                0 <= k < j ==> (#[trigger] tuples@[k]).state.id < n_states
                    && tuples@[k].next_state.id < n_states,
        decreases tuples@.len() - j,
    {
        if tuples[j].state.id >= n_states || tuples[j].next_state.id >= n_states {
            return Err(ParseError::StateOutOfRange);
        }
        j = j + 1;
    }
    if tape_text.unicode_len() == 0 {
        return Err(ParseError::EmptyTape);
    }
    let alphabet = unique_chars(alpha);
    let tape_content = chars_of(tape_text);
    let tape = Tape::new(tape_content, blank);
    let states = create_states(n_states);
    let initial = State::new(initial_id);
    proof {
        let count = n_states as nat;
        lemma_state_seq_contains(count, initial);
        assert forall|k: int| 0 <= k < final_states@.len() implies state_seq(count).contains(
            #[trigger] final_states@[k],
        ) by {
            lemma_state_seq_contains(count, final_states@[k]);
        }
        assert forall|k: int| 0 <= k < tuples@.len() implies state_seq(count).contains(
            (#[trigger] tuples@[k]).state,
        ) && state_seq(count).contains(tuples@[k].next_state) by {
            lemma_state_seq_contains(count, tuples@[k].state);
            lemma_state_seq_contains(count, tuples@[k].next_state);
        }
    }
    let m = TuringMachine::new(states, initial, final_states, alphabet, tuples, blank, tape);
    Ok(m)
}

} // verus!

