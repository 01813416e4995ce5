//! The small values that the automaton layers exchange: state ids, input
//! symbols and the line-context mode.

use crate::char_class::{unicode_whitespace, AnyType};
use vstd::prelude::*;

verus! {

/// The id of an automaton state.
#[derive(Hash, PartialEq, Eq, PartialOrd, Ord, Clone, Copy, Debug, Structural)]
pub struct Status(pub usize);

impl Default for Status {
    fn default() -> (r: Status)
        ensures
            r == Status(0),
    {
        Status(0)
    }
}

impl From<usize> for Status {
    fn from(i: usize) -> (r: Status) {
        Status(i)
    }
}

impl vstd::std_specs::convert::FromSpecImpl<usize> for Status {
    open spec fn obeys_from_spec() -> bool {
        true
    }

    open spec fn from_spec(i: usize) -> Status {
        Status(i)
    }
}

/// One symbol of the automaton's input.
#[derive(Hash, PartialEq, Eq, Debug)]
pub enum InputChar {
    /// Marks the start of a line.
    LineStart,
    /// A character of the source.
    Char(char),
    /// Marks the end of the source.
    Eof,
    /// A character that was matched by a class; the class is the key.
    Any(AnyType),
}

impl Clone for InputChar {
    fn clone(&self) -> (r: InputChar)
        ensures
            r == *self,
    {
        match self {
            InputChar::LineStart => InputChar::LineStart,
            InputChar::Char(c) => InputChar::Char(*c),
            InputChar::Eof => InputChar::Eof,
            InputChar::Any(a) => InputChar::Any(a.clone()),
        }
    }
}

impl Default for InputChar {
    fn default() -> (r: InputChar)
        ensures
            r == InputChar::LineStart,
    {
        InputChar::LineStart
    }
}

impl From<char> for InputChar {
    fn from(c: char) -> (r: InputChar) {
        InputChar::Char(c)
    }
}

impl vstd::std_specs::convert::FromSpecImpl<char> for InputChar {
    open spec fn obeys_from_spec() -> bool {
        true
    }

    open spec fn from_spec(c: char) -> InputChar {
        InputChar::Char(c)
    }
}

impl From<AnyType> for InputChar {
    fn from(a: AnyType) -> (r: InputChar) {
        InputChar::Any(a)
    }
}

impl vstd::std_specs::convert::FromSpecImpl<AnyType> for InputChar {
    open spec fn obeys_from_spec() -> bool {
        true
    }

    open spec fn from_spec(a: AnyType) -> InputChar {
        InputChar::Any(a)
    }
}

impl InputChar {
    /// The source character that the symbol carries, if it is one.
    pub open spec fn literal(self) -> Option<char> {
        match self {
            InputChar::Char(c) => Some(c),
            _ => None,
        }
    }

    /// The source character that the symbol carries, if it is one.
    pub fn as_char(&self) -> (r: Option<char>)
        ensures
            r == self.literal(),
    {
        match self {
            InputChar::Char(c) => Some(*c),
            _ => None,
        }
    }

    /// Structural equality of two symbols.
    pub fn same(&self, other: &InputChar) -> (b: bool)
        ensures
            b == (*self == *other),
    {
        match (self, other) {
            (InputChar::LineStart, InputChar::LineStart) => true,
            (InputChar::Char(a), InputChar::Char(b)) => *a == *b,
            (InputChar::Eof, InputChar::Eof) => true,
            (InputChar::Any(a), InputChar::Any(b)) => a.same(b),
            _ => false,
        }
    }
}

/// Whether the next symbol begins a line.
#[derive(Debug, PartialEq, Eq, Clone, Copy, Structural)]
pub enum LineStatus {
    /// Something other than whitespace was read on this line.
    Normal,
    /// Only whitespace was read since the last line break, or nothing at all.
    LineStart,
}

impl LineStatus {
    /// The mode after one character: a line break opens a line, any other
    /// whitespace changes nothing, everything else ends the line's start.
    pub open spec fn after_char(self, c: char) -> LineStatus {
        if c == '\n' {
            LineStatus::LineStart
        } else if !unicode_whitespace(c) {
            LineStatus::Normal
        } else {
            self
        }
    }

    /// The mode after one symbol. Besides characters, the line-start marker
    /// and a class-matched line break open a line; the other symbols change
    /// nothing.
    pub open spec fn after(self, input: InputChar) -> LineStatus {
        match input {
            InputChar::Char(c) => self.after_char(c),
            InputChar::LineStart => LineStatus::LineStart,
            InputChar::Any(AnyType::Char(c)) => if c == '\n' {
                LineStatus::LineStart
            } else {
                self
            },
            _ => self,
        }
    }

    /// The mode after a run of characters, taken one by one from the left.
    pub open spec fn track(self, text: Seq<char>) -> LineStatus
        decreases text.len(),
    {
        if text.len() == 0 {
            self
        } else {
            self.track(text.drop_last()).after_char(text.last())
        }
    }

    /// The mode found by walking `text` backward from its end: the first
    /// character that is a line break or no whitespace decides; if there is
    /// none, the mode is the one the text started in.
    pub open spec fn rescan(self, text: Seq<char>) -> LineStatus
        decreases text.len(),
    {
        if text.len() == 0 {
            self
        } else if text.last() == '\n' {
            LineStatus::LineStart
        } else if !unicode_whitespace(text.last()) {
            LineStatus::Normal
        } else {
            self.rescan(text.drop_last())
        }
    }

    /// Moves the mode over one symbol.
    pub fn update(&mut self, input: &InputChar)
        ensures
            *final(self) == old(self).after(*input),
    {
        match input {
            InputChar::Char(c) => {
                if *c == '\n' {
                    *self = LineStatus::LineStart;
                } else if !c.is_whitespace() {
                    *self = LineStatus::Normal;
                }
            },
            InputChar::LineStart => {
                *self = LineStatus::LineStart;
            },
            InputChar::Any(AnyType::Char(c)) => {
                if *c == '\n' {
                    *self = LineStatus::LineStart;
                }
            },
            _ => {},
        }
    }

    /// The mode at the end of `text`, found by walking backward over its
    /// trailing whitespace; `self` is the mode before the text.
    pub fn rescan_from(self, text: &[char]) -> (r: LineStatus)
        ensures
            r == self.rescan(text@),
            r == self.track(text@),
    {
        let mut idx: usize = text.len();
        assert(text@.take(idx as int) == text@);
        while idx > 0
            invariant
                idx <= text.len(),
                self.rescan(text@) == self.rescan(text@.take(idx as int)),
            decreases idx,
        {
            let c: char = text[idx - 1];
            proof {
                let head = text@.take(idx as int);
                assert(head.last() == c);
                assert(head.drop_last() == text@.take(idx - 1));
            }
            if c == '\n' {
                proof {
                    lemma_track_is_rescan(self, text@);
                }
                return LineStatus::LineStart;
            }
            if !c.is_whitespace() {
                proof {
                    lemma_track_is_rescan(self, text@);
                }
                return LineStatus::Normal;
            }
            idx = idx - 1;
        }
        proof {
            assert(text@.take(0).len() == 0);
            lemma_track_is_rescan(self, text@);
        }
        self
    }
}

/// The incremental tracker and the backward scan agree on every text and
/// every starting mode.
pub proof fn lemma_track_is_rescan(mode: LineStatus, text: Seq<char>)
    ensures
        mode.track(text) == mode.rescan(text),
    decreases text.len(),
{
    if text.len() > 0 {
        lemma_track_is_rescan(mode, text.drop_last());
    }
}

} // verus!
