use turing_machine::tape::{Moves, Tape};

#[test]
fn write_then_read_returns_symbol() {
    let mut t = Tape::new(vec!['a', 'b'], '$');
    t.set_char_at_pos('x');
    assert_eq!(t.get_char_at_pos(), 'x');
    t.move_head(Moves::R);
    t.set_char_at_pos('y');
    assert_eq!(t.get_char_at_pos(), 'y');
    assert_eq!(t.content, vec!['x', 'y']);
}

#[test]
fn left_extension_keeps_head_at_zero() {
    let mut t = Tape::new(vec!['a'], '$');
    t.move_head(Moves::L);
    assert_eq!(t.content, vec!['$', 'a']);
    assert_eq!(t.pos, 0);
}

#[test]
fn right_extension_appends_blank() {
    let mut t = Tape::new(vec!['a'], '$');
    t.move_head(Moves::R);
    assert_eq!(t.content, vec!['a', '$']);
    assert_eq!(t.pos, 1);
    assert_eq!(t.get_char_at_pos(), '$');
}

#[test]
fn stay_changes_nothing() {
    let mut t = Tape::new(vec!['a', 'b'], '$');
    t.move_head(Moves::S);
    assert_eq!(t.content, vec!['a', 'b']);
    assert_eq!(t.pos, 0);
}

#[test]
fn any_move_sequence_keeps_reads_and_writes_valid() {
    let mut t = Tape::new(vec!['a'], '$');
    let moves = [
        Moves::L,
        Moves::L,
        Moves::R,
        Moves::R,
        Moves::R,
        Moves::S,
        Moves::L,
        Moves::R,
        Moves::R,
    ];
    for m in moves {
        t.move_head(m);
        let c = t.get_char_at_pos();
        t.set_char_at_pos(c);
        assert!((t.pos as usize) < t.content.len());
    }
    assert_eq!(t.content.len(), 5);
}

#[test]
fn interior_moves_shift_head_only() {
    let mut t = Tape::new(vec!['a', 'b', 'c'], '$');
    t.move_head(Moves::R);
    assert_eq!(t.pos, 1);
    assert_eq!(t.content, vec!['a', 'b', 'c']);
    t.move_head(Moves::L);
    assert_eq!(t.pos, 0);
    assert_eq!(t.content, vec!['a', 'b', 'c']);
}

#[test]
fn render_returns_materialized_window() {
    let t = Tape::new(vec!['a', 'b'], '$');
    assert_eq!(t.render(), vec!['a', 'b']);
}
