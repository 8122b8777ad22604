//! What the two parsers share: a position in a text, and the ways to read
//! on from it.

use crate::text::{chars_of, is_space, is_whitespace, push_char};
use vstd::string::StrSliceExecFns;
use vstd::prelude::*;

verus! {

/// Why a text could not be parsed.
#[derive(Clone, Copy, Debug, PartialEq, Eq, Structural)]
pub enum ParseError {
    /// The text does not follow the grammar.
    MalformedInput,
    /// The text asks for something that the engine does not have, such as a
    /// unit other than `px`.
    UnsupportedConstruct,
}

/// What was read, and where reading stopped; or why it failed.
pub type Parsed<T> = Result<(T, int), ParseError>;

/// What a parsing step gave, together with the place where it stopped.
pub open spec fn outcome<T>(value: Result<T, ParseError>, at: int) -> Parsed<T> {
    match value {
        Ok(v) => Ok((v, at)),
        Err(e) => Err(e),
    }
}

/// A set of characters that the parsers read runs of.
#[derive(Clone, Copy, Debug, PartialEq, Eq, Structural)]
pub enum CharClass {
    /// White space.
    Whitespace,
    /// Letters and digits: what a tag or attribute name is made of.
    Alphanumeric,
    /// Letters, digits, `-` and `_`: what a CSS identifier is made of.
    Identifier,
    /// Digits.
    Digit,
    /// Digits and `.`: what a number is made of.
    Numeric,
    /// Every character but the given one.
    Except(char),
}

/// Whether `c` is a letter of the basic Latin alphabet or a digit.
pub open spec fn is_alphanumeric(c: char) -> bool {
    ('a' <= c && c <= 'z') || ('A' <= c && c <= 'Z') || ('0' <= c && c <= '9')
}

/// Whether `c` is a digit.
pub open spec fn is_digit(c: char) -> bool {
    '0' <= c && c <= '9'
}

impl CharClass {
    /// Whether the class holds `c`.
    pub open spec fn holds(self, c: char) -> bool {
        match self {
            CharClass::Whitespace => is_space(c),
            CharClass::Alphanumeric => is_alphanumeric(c),
            CharClass::Identifier => is_alphanumeric(c) || c == '-' || c == '_',
            CharClass::Digit => is_digit(c),
            CharClass::Numeric => is_digit(c) || c == '.',
            CharClass::Except(other) => c != other,
        }
    }

    /// Whether the class holds `c`.
    pub fn test(self, c: char) -> (held: bool)
        ensures
            held == self.holds(c),
    {
        match self {
            CharClass::Whitespace => is_whitespace(c),
            CharClass::Alphanumeric => ('a' <= c && c <= 'z') || ('A' <= c && c <= 'Z') || ('0'
                <= c && c <= '9'),
            CharClass::Identifier => ('a' <= c && c <= 'z') || ('A' <= c && c <= 'Z') || ('0'
                <= c && c <= '9') || c == '-' || c == '_',
            CharClass::Digit => '0' <= c && c <= '9',
            CharClass::Numeric => ('0' <= c && c <= '9') || c == '.',
            CharClass::Except(other) => c != other,
        }
    }
}

/// Where the longest run of characters of `class` that starts at `pos`
/// ends.
pub open spec fn run_end(text: Seq<char>, pos: int, class: CharClass) -> int
    decreases text.len() - pos,
{
    if 0 <= pos < text.len() && class.holds(text[pos]) {
        run_end(text, pos + 1, class)
    } else {
        pos
    }
}

/// A run ends behind its start, inside the text, holds characters of its
/// class alone, and stops where the next character is none of them.
pub proof fn lemma_run_end(text: Seq<char>, pos: int, class: CharClass)
    requires
        0 <= pos <= text.len(),
    ensures
        pos <= run_end(text, pos, class) <= text.len(),
        forall|i: int| pos <= i < run_end(text, pos, class) ==> class.holds(#[trigger] text[i]),
        run_end(text, pos, class) < text.len() ==> !class.holds(
            text[run_end(text, pos, class)],
        ),
        pos < text.len() && class.holds(text[pos]) ==> run_end(text, pos, class) > pos,
    decreases text.len() - pos,
{
    if pos < text.len() && class.holds(text[pos]) {
        lemma_run_end(text, pos + 1, class);
    }
}

/// A stretch of characters of one class, with the end of the text or a
/// character of another class behind it, is a run.
pub proof fn lemma_run_end_is(text: Seq<char>, pos: int, end: int, class: CharClass)
    requires
        0 <= pos <= end <= text.len(),
        forall|i: int| pos <= i < end ==> class.holds(#[trigger] text[i]),
        end < text.len() ==> !class.holds(text[end]),
    ensures
        run_end(text, pos, class) == end,
    decreases end - pos,
{
    if pos < end {
        lemma_run_end_is(text, pos + 1, end, class);
    }
}

/// Whether `text` goes on with `word` at `pos`.
pub open spec fn goes_on_with(text: Seq<char>, pos: int, word: Seq<char>) -> bool {
    0 <= pos && pos + word.len() <= text.len() && text.subrange(pos, pos + word.len()) == word
}

/// Whether the character of `text` at `pos` is `c`.
pub open spec fn next_is(text: Seq<char>, pos: int, c: char) -> bool {
    0 <= pos < text.len() && text[pos] == c
}

/// A text and the place up to which it has been read.
pub struct Parser {
    pos: usize,
    input: Vec<char>,
}

impl Parser {
    /// The text.
    pub closed spec fn text(self) -> Seq<char> {
        self.input@
    }

    /// The number of characters that have been read.
    pub closed spec fn at(self) -> nat {
        self.pos as nat
    }

    /// The place is inside the text, or at its end.
    #[verifier::type_invariant]
    pub open spec fn inside(self) -> bool {
        self.at() <= self.text().len()
    }

    /// A parser at the start of `source`.
    pub fn new(source: &str) -> (parser: Parser)
        ensures
            parser.text() == source@,
            parser.at() == 0,
    {
        Parser { pos: 0, input: chars_of(source) }
    }

    /// Whether all of the text has been read.
    pub fn eof(&self) -> (done: bool)
        ensures
            done == (self.at() >= self.text().len()),
            0 <= self.at() <= self.text().len(),
    {
        proof {
            use_type_invariant(self);
        }
        self.pos >= self.input.len()
    }

    /// The next character, which stays unread.
    pub fn next_char(&self) -> (c: char)
        requires
            self.at() < self.text().len(),
        ensures
            c == self.text()[self.at() as int],
    {
        self.input[self.pos]
    }

    /// Whether the text goes on with `word`.
    pub fn starts_with(&self, word: &str) -> (found: bool)
        ensures
            found == goes_on_with(self.text(), self.at() as int, word@),
    {
        proof {
            use_type_invariant(self);
        }
        let wanted = chars_of(word);
        if wanted.len() > self.input.len() - self.pos {
            return false;
        }
        let mut i: usize = 0;
        while i < wanted.len()
            invariant
                i <= wanted.len(),
                wanted@ == word@,
                self.pos + wanted.len() <= self.input.len(),
                forall|j: int| 0 <= j < i ==> self.input[self.pos + j] == wanted[j],
            decreases wanted.len() - i,
        {
            if self.input[self.pos + i] != wanted[i] {
                assert(self.input@.subrange(self.pos as int, self.pos + wanted.len())[i as int]
                    != wanted@[i as int]);
                return false;
            }
            i = i + 1;
        }
        assert(self.input@.subrange(self.pos as int, self.pos + wanted.len()) =~= wanted@);
        true
    }

    /// Reads the next character.
    pub fn consume_char(&mut self) -> (c: char)
        requires
            old(self).at() < old(self).text().len(),
        ensures
            c == old(self).text()[old(self).at() as int],
            final(self).text() == old(self).text(),
            final(self).at() <= final(self).text().len(),
            final(self).at() == old(self).at() + 1,
    {
        let n = self.input.len();
        let c = self.input[self.pos];
        self.pos = self.pos + 1;
        c
    }

    /// Reads `word`, if the text goes on with it; fails without reading
    /// otherwise.
    pub fn expect(&mut self, word: &str) -> (read: Result<(), ParseError>)
        ensures
            final(self).text() == old(self).text(),
            final(self).at() <= final(self).text().len(),
            match read {
                Ok(_) => {
                    &&& goes_on_with(old(self).text(), old(self).at() as int, word@)
                    &&& final(self).at() == old(self).at() + word@.len()
                },
                Err(error) => {
                    &&& !goes_on_with(old(self).text(), old(self).at() as int, word@)
                    &&& final(self).at() == old(self).at()
                    &&& error == ParseError::MalformedInput
                },
            },
    {
        proof {
            use_type_invariant(&*self);
        }
        if self.starts_with(word) {
            let n = word.unicode_len();
            let len = self.input.len();
            self.pos = self.pos + n;
            Ok(())
        } else {
            Err(ParseError::MalformedInput)
        }
    }

    /// Reads the character `c`, if it is the next one; fails without reading
    /// otherwise.
    pub fn expect_char(&mut self, c: char) -> (read: Result<(), ParseError>)
        ensures
            final(self).text() == old(self).text(),
            final(self).at() <= final(self).text().len(),
            match read {
                Ok(_) => {
                    &&& next_is(old(self).text(), old(self).at() as int, c)
                    &&& final(self).at() == old(self).at() + 1
                },
                Err(error) => {
                    &&& !next_is(old(self).text(), old(self).at() as int, c)
                    &&& final(self).at() == old(self).at()
                    &&& error == ParseError::MalformedInput
                },
            },
    {
        if !self.eof() && self.next_char() == c {
            let len = self.input.len();
            self.pos = self.pos + 1;
            Ok(())
        } else {
            Err(ParseError::MalformedInput)
        }
    }

    /// Reads the longest run of characters of `class` and hands it back.
    pub fn consume_while(&mut self, class: CharClass) -> (run: String)
        ensures
            final(self).text() == old(self).text(),
            final(self).at() <= final(self).text().len(),
            final(self).at() == run_end(old(self).text(), old(self).at() as int, class),
            run@ == old(self).text().subrange(old(self).at() as int, final(self).at() as int),
    {
        proof {
            use_type_invariant(&*self);
        }
        let mut result = String::new();
        let ghost start = self.pos as int;
        while !self.eof() && class.test(self.next_char())
            invariant
                self.input@ == old(self).input@,
                start == old(self).pos,
                start <= self.pos <= self.input.len(),
                run_end(self.input@, start, class) == run_end(self.input@, self.pos as int, class),
                result@ == self.input@.subrange(start, self.pos as int),
            decreases self.input.len() - self.pos,
        {
            let c = self.consume_char();
            push_char(&mut result, c);
            proof {
                use_type_invariant(&*self);
                assert(result@ =~= self.input@.subrange(start, self.pos as int));
            }
        }
        result
    }

    /// Reads on past any white space.
    pub fn consume_whitespace(&mut self)
        ensures
            final(self).text() == old(self).text(),
            final(self).at() <= final(self).text().len(),
            final(self).at() == run_end(
                old(self).text(),
                old(self).at() as int,
                CharClass::Whitespace,
            ),
    {
        let _ = self.consume_while(CharClass::Whitespace);
    }
}

} // verus!
