//! Line/column cursors used to tag every token and error with the place in
//! the input where it begins.  Positions are zero-based; a newline resets the
//! column and advances the line.

use vstd::prelude::*;

verus! {

/// A frozen position in the input: line and column, both zero-based.
#[derive(Debug, PartialEq, Eq, Structural, Clone, Copy)]
pub struct Position {
    /// line of the input
    pub line: usize,
    /// position within that line
    pub pos: usize,
}

impl Position {
    /// Construct a new position at `(0, 0)`.
    pub fn new() -> (r: Self)
        ensures
            r.line == 0 && r.pos == 0,
    {
        Self::at(0, 0)
    }

    /// Construct a new position at an arbitrary line and column.
    pub fn at(line: usize, pos: usize) -> (r: Self)
        ensures
            r.line == line && r.pos == pos,
    {
        Position { line: line, pos: pos }
    }
}

/// A position cursor that can advance over characters and rewind over them
/// again.  It remembers the length of every completed line, so rewinding can
/// cross line boundaries and restore the previous column.
#[derive(Debug)]
pub struct MutablePosition {
    pub line: usize,
    pub pos: usize,
    pub line_lengths: Vec<usize>,
}

/// The number of characters that `unpush` can still rewind over: the current
/// column plus, for each completed line, its length and its newline.
pub open spec fn history(lens: Seq<usize>, pos: int) -> int
    decreases lens.len(),
{
    if lens.len() == 0 {
        pos
    } else {
        history(lens.drop_last(), pos) + lens.last() + 1
    }
}

/// The reach of the history does not depend on the current column: shifting
/// the column shifts the history by the same amount.
pub proof fn lemma_history_shift(lens: Seq<usize>, p1: int, p2: int)
    ensures
        history(lens, p1) - p1 == history(lens, p2) - p2,
    decreases lens.len(),
{
    if lens.len() > 0 {
        lemma_history_shift(lens.drop_last(), p1, p2);
    }
}

/// What rewinding by `amt` does to a cursor: subtract within the current
/// line, or pop a completed line, land on its last column, account for the
/// newline, and continue.
pub open spec fn unpush_spec(line: int, pos: int, lens: Seq<usize>, amt: int) -> (int, int, Seq<
    usize,
>)
    decreases amt,
{
    if amt <= pos {
        (line, pos - amt, lens)
    } else if lens.len() == 0 || pos < 0 {
        (line, pos, lens)
    } else {
        unpush_spec(line - 1, lens.last() as int, lens.drop_last(), amt - pos - 1)
    }
}

impl MutablePosition {
    /// A cursor is well formed when its line number is at least the number of
    /// completed lines it remembers.
    pub open spec fn wf(&self) -> bool {
        self.line >= self.lens().len()
    }

    /// The recorded lengths of the completed lines, oldest first.
    pub open spec fn lens(&self) -> Seq<usize> {
        self.line_lengths@
    }

    /// Construct a cursor at `(0, 0)` with no history.
    pub fn new() -> (r: Self)
        ensures
            r.line == 0 && r.pos == 0 && r.lens() == Seq::<usize>::empty(),
            r.wf(),
    {
        Self::at(0, 0)
    }

    /// Construct a cursor at an arbitrary line and column, with no history.
    pub fn at(line: usize, pos: usize) -> (r: Self)
        ensures
            r.line == line && r.pos == pos && r.lens() == Seq::<usize>::empty(),
            r.wf(),
    {
        MutablePosition { line: line, pos: pos, line_lengths: Vec::new() }
    }

    /// Advance over a newline: record the finished line's length, move to the
    /// start of the next line.
    pub fn new_line(&mut self)
        requires
            old(self).line < usize::MAX,
        ensures
            final(self).line == old(self).line + 1,
            final(self).pos == 0,
            final(self).lens() == old(self).lens().push(old(self).pos),
            old(self).wf() ==> final(self).wf(),
    {
        self.line_lengths.push(self.pos);
        self.pos = 0;
        self.line = self.line + 1;
    }

    /// Advance by `amt` columns within the current line.
    pub fn push(&mut self, amt: usize)
        requires
            old(self).pos + amt <= usize::MAX,
        ensures
            final(self).line == old(self).line,
            final(self).pos == old(self).pos + amt,
            final(self).lens() == old(self).lens(),
            old(self).wf() ==> final(self).wf(),
    {
        self.pos = self.pos + amt;
    }

    /// Rewind by `amt` characters, crossing line boundaries as needed.  The
    /// history must reach back far enough; rewinding past it is not allowed.
    pub fn unpush(&mut self, amt: usize)
        requires
            old(self).wf(),
            amt <= history(old(self).lens(), old(self).pos as int),
        ensures
            final(self).wf(),
            (final(self).line as int, final(self).pos as int, final(self).lens())
                == unpush_spec(
                old(self).line as int,
                old(self).pos as int,
                old(self).lens(),
                amt as int,
            ),
        decreases amt,
    {
        if amt <= self.pos {
            self.pos = self.pos - amt;
        } else {
            proof {
                assert(history(self.lens(), self.pos as int) > self.pos as int);
                assert(self.lens().len() > 0) by {
                    if self.lens().len() == 0 {
                        assert(history(self.lens(), self.pos as int) == self.pos as int);
                    }
                }
            }
            let length = self.line_lengths.pop().unwrap();
            let oldpos = self.pos;
            proof {
                lemma_history_shift(self.line_lengths@, oldpos as int, length as int);
            }
            self.pos = length;
            self.line = self.line - 1;
            self.unpush(amt - oldpos - 1);
        }
    }

    /// Freeze the cursor into a plain `Position`.
    pub fn freeze(self) -> (r: Position)
        ensures
            r.line == self.line && r.pos == self.pos,
    {
        Position { line: self.line, pos: self.pos }
    }
}

impl Clone for MutablePosition {
    /// The clone keeps the line and column but drops the rewind history.
    fn clone(&self) -> (r: Self)
        ensures
            r.line == self.line && r.pos == self.pos,
            r.lens() == Seq::<usize>::empty(),
            r.wf(),
    {
        MutablePosition { line: self.line, pos: self.pos, line_lengths: Vec::new() }
    }
}

impl PartialEq for MutablePosition {
    /// Two cursors are equal when they point at the same line and column; the
    /// rewind history does not take part.
    fn eq(&self, other: &MutablePosition) -> (r: bool) {
        self.pos == other.pos && self.line == other.line
    }
}

impl vstd::std_specs::cmp::PartialEqSpecImpl for MutablePosition {
    open spec fn obeys_eq_spec() -> bool {
        true
    }

    open spec fn eq_spec(&self, other: &MutablePosition) -> bool {
        self.pos == other.pos && self.line == other.line
    }
}

} // verus!
