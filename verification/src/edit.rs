//! Positions, ranges and textual edits over the bytes of a source file.
use vstd::prelude::*;
use vstd::slice::slice_subrange;

verus! {
/// A position in a text: zero-based row and column, the column counted in bytes.
#[derive(Clone, Copy, Debug, PartialEq, Eq, Structural)]
pub struct Point {
    pub row: usize,
    pub column: usize,
}

/// A stretch of a text: from the byte at `start_byte` up to, not including,
/// the byte at `end_byte`.
#[derive(Clone, Copy, Debug, PartialEq, Eq, Structural)]
pub struct Range {
    pub start_byte: usize,
    pub end_byte: usize,
}

impl Range {
    /// The stretch lies within a text of `len` bytes and does not end before it starts.
    pub open spec fn within(self, len: int) -> bool {
        self.start_byte <= self.end_byte <= len
    }

    /// Every byte of `inner` is a byte of `self`.
    pub open spec fn encloses(self, inner: Range) -> bool {
        self.start_byte <= inner.start_byte && inner.end_byte <= self.end_byte
    }

    /// Tests whether every byte of `inner` is a byte of `self`.
    pub fn contains_range(&self, inner: &Range) -> (b: bool)
        ensures
            b == self.encloses(*inner),
    {
        self.start_byte <= inner.start_byte && inner.end_byte <= self.end_byte
    }
}

/// The summary of one replacement, as an incremental parser wants it.
#[derive(Clone, Copy, Debug, PartialEq, Eq, Structural)]
pub struct InputEdit {
    pub start_byte: usize,
    pub old_end_byte: usize,
    pub new_end_byte: usize,
    pub start_position: Point,
    pub old_end_position: Point,
    pub new_end_position: Point,
}

/// One replacement that a rule asks for.
#[derive(Debug)]
pub struct Edit {
    /// The stretch of the text to replace.
    pub replacement_range: Range,
    /// What to put in its place.
    pub replacement_string: String,
    /// The name of the rule that matched.
    pub matched_rule: String,
}

/// The byte value of a line feed.
pub const NEWLINE: u8 = 10u8;

/// The number of line feeds among `bytes`.
pub open spec fn row_after(bytes: Seq<u8>) -> nat
    decreases bytes.len(),
{
    if bytes.len() == 0 {
        0
    } else if bytes.last() == NEWLINE {
        row_after(bytes.drop_last()) + 1
    } else {
        row_after(bytes.drop_last())
    }
}

/// The number of bytes that follow the last line feed of `bytes`.
pub open spec fn column_after(bytes: Seq<u8>) -> nat
    decreases bytes.len(),
{
    if bytes.len() == 0 {
        0
    } else if bytes.last() == NEWLINE {
        0
    } else {
        column_after(bytes.drop_last()) + 1
    }
}

/// `p` is the position reached after reading `bytes` from the start of a text.
pub open spec fn is_position_after(p: Point, bytes: Seq<u8>) -> bool {
    p.row == row_after(bytes) && p.column == column_after(bytes)
}

/// `code` with the bytes from `start` up to `end` replaced by `replacement`.
pub open spec fn splice(code: Seq<u8>, start: int, end: int, replacement: Seq<u8>) -> Seq<u8> {
    code.subrange(0, start) + replacement + code.subrange(end, code.len() as int)
}

/// `edit` sums up the replacement of the bytes of `code` that `range` covers
/// by `replacement`.
pub open spec fn describes(edit: InputEdit, code: Seq<u8>, range: Range, replacement: Seq<u8>) -> bool {
    &&& edit.start_byte == range.start_byte
    &&& edit.old_end_byte == range.end_byte
    &&& edit.new_end_byte == range.start_byte + replacement.len()
    &&& is_position_after(edit.start_position, code.take(range.start_byte as int))
    &&& is_position_after(edit.old_end_position, code.take(range.end_byte as int))
    &&& is_position_after(
        edit.new_end_position,
        code.take(range.start_byte as int) + replacement,
    )
}

/// Rows and columns never exceed the number of bytes read.
pub proof fn lemma_position_bounded(bytes: Seq<u8>)
    ensures
        row_after(bytes) <= bytes.len(),
        column_after(bytes) <= bytes.len(),
    decreases bytes.len(),
{
    if bytes.len() > 0 {
        lemma_position_bounded(bytes.drop_last());
    }
}

/// Reads `more` on from position `from`, which was reached after `done`.
fn advance_position(from: Point, more: &[u8], Ghost(done): Ghost<Seq<u8>>) -> (p: Point)
    requires
        is_position_after(from, done),
        done.len() + more@.len() <= usize::MAX,
    ensures
        is_position_after(p, done + more@),
{
    let mut p = from;
    let mut i: usize = 0;
    while i < more.len()
        invariant
            i <= more.len(),
            done.len() + more@.len() <= usize::MAX,
            is_position_after(p, done + more@.take(i as int)),
        decreases more.len() - i,
    {
        proof {
            let seen = done + more@.take(i as int);
            let next = done + more@.take(i + 1);
            lemma_position_bounded(seen);
            assert(next.drop_last() =~= seen);
        }
        if more[i] == NEWLINE {
            p = Point { row: p.row + 1, column: 0 };
        } else {
            p = Point { row: p.row, column: p.column + 1 };
        }
        i += 1;
    }
    assert(more@.take(more@.len() as int) =~= more@);
    p
}

/// The row and column of the byte at `offset` in `input`.
pub fn position_for_offset(input: &[u8], offset: usize) -> (p: Point)
    requires
        offset <= input@.len(),
    ensures
        is_position_after(p, input@.take(offset as int)),
{
    let head = slice_subrange(input, 0, offset);
    let p = advance_position(Point { row: 0, column: 0 }, head, Ghost(Seq::empty()));
    p
}

/// Replaces the bytes of `code` that `range` covers by `replacement`: the new
/// text, and the summary of the change for an incremental parser.
pub fn get_tree_sitter_edit(code: &[u8], range: &Range, replacement: &[u8]) -> (r: (
    Vec<u8>,
    InputEdit,
))
    requires
        range.within(code@.len() as int),
    ensures
        r.0@ == splice(code@, range.start_byte as int, range.end_byte as int, replacement@),
        describes(r.1, code@, *range, replacement@),
{
    let start = range.start_byte;
    let end = range.end_byte;
    let head = slice_subrange(code, 0, start);
    let tail = slice_subrange(code, end, code.len());
    let mut new_code: Vec<u8> = Vec::new();
    new_code.extend_from_slice(head);
    new_code.extend_from_slice(replacement);
    new_code.extend_from_slice(tail);
    let new_end_byte = new_code.len() - tail.len();
    let start_position = position_for_offset(code, start);
    let old_end_position = position_for_offset(code, end);
    let new_end_position = advance_position(start_position, replacement, Ghost(head@));
    let edit = InputEdit {
        start_byte: start,
        old_end_byte: end,
        new_end_byte,
        start_position,
        old_end_position,
        new_end_position,
    };
    (new_code, edit)
}
} // verus!
