use vstd::prelude::*;

verus! {

/// A head movement: one cell to the left, one cell to the right, or stay put.
#[derive(Clone, Copy, Debug, PartialEq, Eq, Structural)]
pub enum Moves {
    L,
    R,
    S,
}

/// Mathematical model of a tape: the materialized window of symbols, the head
/// position within that window, and the blank symbol used to extend it.
///
/// The tape is logically infinite in both directions; only the visited window
/// is stored, and movement past either end materializes one blank cell.
#[verifier::ext_equal]
pub struct TapeModel {
    pub content: Seq<char>,
    pub pos: nat,
    pub blank: char,
}

impl TapeModel {
    /// The head always addresses a materialized cell.
    pub open spec fn wf(self) -> bool {
        self.pos < self.content.len()
    }

    /// The symbol under the head.
    pub open spec fn read(self) -> char {
        self.content[self.pos as int]
    }

    /// Replace the symbol under the head.
    pub open spec fn write(self, c: char) -> TapeModel {
        TapeModel { content: self.content.update(self.pos as int, c), ..self }
    }

    /// Move the head one cell, extending the window with a blank cell when the
    /// head would otherwise leave it. Moving left at position 0 extends the
    /// window leftward and leaves the head on the new cell at position 0.
    pub open spec fn moved(self, dir: Moves) -> TapeModel {
        match dir {
            Moves::S => self,
            Moves::R => if self.pos + 1 == self.content.len() {
                TapeModel { content: self.content.push(self.blank), pos: self.pos + 1, ..self }
            } else {
                TapeModel { pos: self.pos + 1, ..self }
            },
            Moves::L => if self.pos == 0 {
                TapeModel { content: seq![self.blank] + self.content, ..self }
            } else {
                TapeModel { pos: (self.pos - 1) as nat, ..self }
            },
        }
    }

    /// The tape after a whole sequence of head movements.
    pub open spec fn moved_all(self, dirs: Seq<Moves>) -> TapeModel
        decreases dirs.len(),
    {
        if dirs.len() == 0 {
            self
        } else {
            self.moved(dirs[0]).moved_all(dirs.skip(1))
        }
    }
}

/// Law: a single head movement keeps the head on a materialized cell.
pub proof fn lemma_move_preserves_wf(t: TapeModel, dir: Moves)
    requires
        t.wf(),
    ensures
        t.moved(dir).wf(),
{
}

/// Law: no sequence of head movements ever produces an out-of-bounds head, so
/// reading and writing stay possible after each movement without any manual
/// extension of the tape.
pub proof fn lemma_moves_preserve_wf(t: TapeModel, dirs: Seq<Moves>)
    requires
        t.wf(),
    ensures
        t.moved_all(dirs).wf(),
    decreases dirs.len(),
{
    if dirs.len() > 0 {
        lemma_move_preserves_wf(t, dirs[0]);
        lemma_moves_preserve_wf(t.moved(dirs[0]), dirs.skip(1));
    }
}

/// Law: writing a symbol and then reading at the same head position returns
/// exactly that symbol.
pub proof fn lemma_write_then_read(t: TapeModel, c: char)
    requires
        t.wf(),
    ensures
        t.write(c).read() == c,
{
}

/// A growable one-dimensional symbol buffer with a head position and a blank
/// symbol; movement past either end extends the buffer on demand.
#[derive(Debug, PartialEq, Clone)]
pub struct Tape {
    pub content: Vec<char>,
    pub pos: usize,
    pub white_char: char,
}

impl View for Tape {
    type V = TapeModel;

    open spec fn view(&self) -> TapeModel {
        TapeModel { content: self.content@, pos: self.pos as nat, blank: self.white_char }
    }
}

impl Tape {
    /// The head addresses a cell of the materialized window.
    pub open spec fn wf(&self) -> bool {
        self@.wf()
    }

    /// Build a tape over an initial non-empty symbol sequence, head at index 0.
    pub fn new(content: Vec<char>, white_char: char) -> (t: Tape)
        requires
            content@.len() > 0,
        ensures
            t@ == (TapeModel { content: content@, pos: 0, blank: white_char }),
            t.wf(),
    {
        Tape { content, pos: 0, white_char }
    }

    /// The symbol at the head position.
    pub fn get_char_at_pos(&self) -> (c: char)
        requires
            self.wf(),
        ensures
            c == self@.read(),
    {
        self.content[self.pos]
    }

    /// Replace the symbol at the head position.
    pub fn set_char_at_pos(&mut self, new_char: char)
        requires
            old(self).wf(),
        ensures
            final(self)@ == old(self)@.write(new_char),
            final(self).wf(),
    {
        self.content[self.pos] = new_char;
    }

    /// Move the head, materializing a blank cell when the head would step
    /// outside the current window.
    pub fn move_head(&mut self, dir: Moves)
        requires
            old(self).wf(),
        ensures
            final(self)@ == old(self)@.moved(dir),
            final(self).wf(),
    {
        match dir {
            Moves::L => self.move_left(),
            Moves::R => self.move_right(),
            Moves::S => {},
        }
    }

    fn move_right(&mut self)
        requires
            old(self).wf(),
        ensures
            final(self)@ == old(self)@.moved(Moves::R),
            final(self).wf(),
    {
        if self.pos == self.content.len() - 1 {
            self.content.push(self.white_char);
        }
        self.pos = self.pos + 1;
    }

    fn move_left(&mut self)
        requires
            old(self).wf(),
        ensures
            final(self)@ == old(self)@.moved(Moves::L),
            final(self).wf(),
    {
        if self.pos == 0 {
            let mut new_content: Vec<char> = Vec::new();
            new_content.push(self.white_char);
            new_content.append(&mut self.content);
            self.content = new_content;
            proof {
                assert(self.content@ =~= seq![self.white_char] + old(self)@.content);
            }
        } else {
            self.pos = self.pos - 1;
        }
    }

    /// An independent copy of this tape.
    pub fn duplicate(&self) -> (t: Tape)
        ensures
            t@ == self@,
    {
        let mut copied: Vec<char> = Vec::new();
        let mut i: usize = 0;
        while i < self.content.len()
            invariant
                i <= self.content.len(),
                copied@ =~= self.content@.subrange(0, i as int),
            decreases self.content.len() - i,
        {
            copied.push(self.content[i]);
            i = i + 1;
        }
        proof {
            assert(copied@ =~= self.content@);
        }
        Tape { content: copied, pos: self.pos, white_char: self.white_char }
    }

    /// The materialized window as a sequence of symbols, for display or output.
    pub fn render(&self) -> (r: Vec<char>)
        ensures
            r@ == self@.content,
    {
        let t = self.duplicate();
        t.content
    }
}

} // verus!
