//! A cursor over the text of a command, and the errors its parsers report.
use vstd::prelude::*;

use crate::text::{chars_of, is_whitespace, string_of};

verus! {

/// Why a command argument did not parse.
#[derive(Debug, PartialEq, Eq)]
pub enum CommandSyntaxError {
    /// An NBT path node is malformed; holds the path text read so far.
    InvalidNbtPathNode(String),
    /// A resource identifier is malformed; holds the text read.
    InvalidIdentifier(String),
    /// An identifier names no resource of the expected registry; holds the
    /// identifier as written.
    InvalidResource(String),
    /// No item is registered under the identifier.
    InvalidItem(String),
    /// No item tag has the identifier.
    UnknownItemTag(String),
    /// No data component has the name.
    UnknownItemComponent(String),
    /// A component test is malformed; holds its text.
    MalformedItemComponent(String),
    /// An entity selector found no entity.
    NoEntities,
    /// One entity was expected and the selector found several.
    NotSingleEntity,
}

/// The text of a command and a cursor into it.
pub struct StringReader {
    chars: Vec<char>,
    cursor: usize,
}

impl StringReader {
    #[verifier::type_invariant]
    spec fn cursor_in_text(self) -> bool {
        self.cursor <= self.chars@.len()
    }

    /// The whole text.
    pub closed spec fn text(&self) -> Seq<char> {
        self.chars@
    }

    /// The cursor, a position in `text()`.
    pub closed spec fn pos(&self) -> int {
        self.cursor as int
    }

    /// The text fits in memory.
    pub proof fn lemma_text_len(&self)
        ensures
            self.text().len() <= usize::MAX,
    {
        assert(self.chars@.len() == self.chars.len());
    }

    /// A reader at the start of `text`.
    pub fn new(text: &str) -> (r: StringReader)
        ensures
            r.text() == text@,
            r.pos() == 0,
    {
        StringReader { chars: chars_of(text), cursor: 0 }
    }

    /// The cursor.
    pub fn cursor(&self) -> (r: usize)
        ensures
            r == self.pos(),
            r <= self.text().len(),
    {
        proof {
            use_type_invariant(self);
        }
        self.cursor
    }

    /// The character at the cursor, if any is left.
    pub fn peek(&self) -> (r: Option<char>)
        ensures
            r == next_char(self.text(), self.pos()),
    {
        proof {
            use_type_invariant(self);
        }
        if self.cursor < self.chars.len() {
            Some(self.chars[self.cursor])
        } else {
            None
        }
    }

    /// Whether a character is left to read.
    pub fn can_read_char(&self) -> (r: bool)
        ensures
            r == (self.pos() < self.text().len()),
    {
        proof {
            use_type_invariant(self);
        }
        self.cursor < self.chars.len()
    }

    /// Moves past the character at the cursor.
    pub fn skip(&mut self)
        requires
            old(self).pos() < old(self).text().len(),
        ensures
            final(self).text() == old(self).text(),
            final(self).pos() == old(self).pos() + 1,
    {
        proof {
            use_type_invariant(&*self);
        }
        let n = self.chars.len();
        assert(self.cursor < n);
        self.cursor = self.cursor + 1;
    }

    /// Moves the cursor to the next space, or to the end.
    pub fn read_until_space(&mut self)
        ensures
            final(self).text() == old(self).text(),
            final(self).pos() == space_from(old(self).text(), old(self).pos()),
            old(self).pos() <= final(self).pos() <= old(self).text().len(),
    {
        proof {
            use_type_invariant(&*self);
        }
        let ghost start = self.cursor as int;
        let ghost s = self.chars@;
        while self.cursor < self.chars.len() && self.chars[self.cursor] != ' '
            invariant
                self.chars@ == s,
                start <= self.cursor <= self.chars@.len(),
                forall|k: int| start <= k < self.cursor ==> self.chars@[k] != ' ',
            decreases self.chars@.len() - self.cursor,
        {
            self.cursor = self.cursor + 1;
        }
        proof {
            lemma_space_from(self.chars@, start, self.cursor as int);
        }
    }

    /// The whole text.
    pub fn string(&self) -> (r: String)
        ensures
            r@ == self.text(),
    {
        string_of(self.chars.as_slice(), 0, self.chars.len())
    }

    /// The text between two positions.
    pub fn slice(&self, from: usize, to: usize) -> (r: String)
        requires
            from <= to <= self.text().len(),
        ensures
            r@ == self.text().subrange(from as int, to as int),
    {
        string_of(self.chars.as_slice(), from, to)
    }
}

/// The character of `s` at `i`, if `i` is inside `s`.
pub open spec fn next_char(s: Seq<char>, i: int) -> Option<char> {
    if 0 <= i < s.len() {
        Some(s[i])
    } else {
        None
    }
}

/// The first position at or after `i` that holds a space, or the end.
pub open spec fn space_from(s: Seq<char>, i: int) -> int
    decreases s.len() - i,
{
    if i < 0 || i >= s.len() || s[i] == ' ' {
        if i < 0 { 0 } else if i > s.len() { s.len() as int } else { i }
    } else {
        space_from(s, i + 1)
    }
}

/// `space_from` is the end of the run of non-spaces that starts at `i`.
pub proof fn lemma_space_from(s: Seq<char>, i: int, j: int)
    requires
        0 <= i <= j <= s.len(),
        forall|k: int| i <= k < j ==> s[k] != ' ',
        j == s.len() || s[j] == ' ',
    ensures
        space_from(s, i) == j,
    decreases j - i,
{
    if i < j {
        lemma_space_from(s, i + 1, j);
    }
}

/// The first position at or after `i` whose character is whitespace or one
/// of `stops`, or the end.
pub open spec fn word_end(s: Seq<char>, i: int, stops: Seq<char>) -> int
    decreases s.len() - i,
{
    if i < 0 {
        0
    } else if i >= s.len() {
        s.len() as int
    } else if is_whitespace(s[i]) || stops.contains(s[i]) {
        i
    } else {
        word_end(s, i + 1, stops)
    }
}

} // verus!
