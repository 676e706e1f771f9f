use crate::text::{byte_offset_of, is_space, is_whitespace, string_of, utf8_len_of, utf8_width};
use vstd::prelude::*;

verus! {

broadcast use vstd::string::group_string_axioms;

/// Why parsing stopped.
#[derive(Debug)]
pub enum ParseErrorKind {
    /// Another character stood where `expected` was due.
    Expected { expected: char, found: char },
    /// A character that is none of `options` stood there.
    ExpectedOneOf { options: String, found: char },
    /// The text `text` does not follow.
    ExpectedText { text: String },
    /// The vertex count is missing, not a number, or not in 1..=4999.
    VertexCount,
    /// A vertex is missing, not a number, or not in 1..=n.
    Vertex,
    /// A weight is missing, not a number, or not in -99..=99.
    Weight,
    /// A reason given by the caller.
    Other { reason: String },
}

/// A parse failure at a byte offset into the text.
#[derive(Debug)]
pub struct ParseError {
    pub pos: usize,
    pub kind: ParseErrorKind,
}

/// The characters of `s`, in order.
pub fn chars_of(s: &str) -> (r: Vec<char>)
    ensures
        r@ == s@,
{
    let mut v: Vec<char> = Vec::new();
    for c in iter: s.chars()
        invariant
            iter.seq() == s@,
            v@ == iter.seq().take(iter.index()),
    {
        v.push(c);
        proof {
            assert(v@ =~= iter.seq().take(iter.index() + 1));
        }
    }
    assert(v@ =~= s@);
    v
}

/// A cursor over a text.
pub struct Parser {
    pos: usize,
    pub input: String,
    chars: Vec<char>,
}

impl Parser {
    /// The text being read.
    pub closed spec fn text(&self) -> Seq<char> {
        self.chars@
    }

    /// How many characters have been read.
    pub closed spec fn position(&self) -> int {
        self.pos as int
    }

    /// The position lies within the text.
    pub open spec fn wf(&self) -> bool {
        &&& self.inv()
        &&& 0 <= self.position() <= self.text().len()
    }

    pub closed spec fn inv(&self) -> bool {
        &&& self.chars@ == self.input@
        &&& self.pos <= self.chars@.len()
        &&& self.chars@.len() <= usize::MAX
    }

    pub fn new(input: String) -> (r: Parser)
        ensures
            r.wf(),
            r.text() == input@,
            r.position() == 0,
    {
        let chars = chars_of(input.as_str());
        let _len = chars.len();
        Parser { pos: 0, input, chars }
    }

    /// How many characters have been read.
    pub fn offset(&self) -> (r: usize)
        ensures
            r == self.position(),
    {
        self.pos
    }

    /// How many bytes have been read, held to `usize`.
    pub fn byte_offset(&self) -> (r: usize)
        requires
            self.wf(),
        ensures
            r == byte_offset_of(self.text(), self.position()),
    {
        let mut total: usize = 0;
        let mut i: usize = 0;
        while i < self.pos
            invariant
                self.wf(),
                i <= self.pos,
                total == byte_offset_of(self.text(), i as int),
            decreases self.pos - i,
        {
            proof {
                assert(self.chars@.take(i + 1).drop_last() =~= self.chars@.take(i as int));
            }
            total = total.saturating_add(utf8_len_of(self.chars[i]));
            i += 1;
        }
        total
    }

    /// The next character, left unread.
    pub fn peek(&self) -> (r: char)
        requires
            self.wf(),
            self.position() < self.text().len(),
        ensures
            r == self.text()[self.position()],
    {
        self.chars[self.pos]
    }

    /// Reads the next character.
    pub fn next(&mut self) -> (r: char)
        requires
            old(self).wf(),
            old(self).position() < old(self).text().len(),
        ensures
            final(self).wf(),
            final(self).text() == old(self).text(),
            final(self).position() == old(self).position() + 1,
            r == old(self).text()[old(self).position()],
    {
        let c = self.peek();
        self.pos = self.pos + 1;
        c
    }

    /// Reads the next character, which must be `expected_char`.
    pub fn next_expect(&mut self, expected_char: char) -> (r: Result<char, ParseError>)
        requires
            old(self).wf(),
            old(self).position() < old(self).text().len(),
        ensures
            final(self).wf(),
            final(self).text() == old(self).text(),
            final(self).position() == old(self).position() + 1,
            r is Ok <==> old(self).text()[old(self).position()] == expected_char,
            r is Ok ==> r->Ok_0 == expected_char,
            r is Err ==> r->Err_0.pos == byte_offset_of(old(self).text(), old(self).position()),
    {
        let at = self.byte_offset();
        let c = self.next();
        if c != expected_char {
            return Err(
                ParseError { pos: at, kind: ParseErrorKind::Expected { expected: expected_char, found: c } },
            );
        }
        Ok(c)
    }

    /// Reads the next character, which must be one of `expected_chars`.
    pub fn next_expect_options(&mut self, expected_chars: &str) -> (r: Result<char, ParseError>)
        requires
            old(self).wf(),
            old(self).position() < old(self).text().len(),
        ensures
            final(self).wf(),
            final(self).text() == old(self).text(),
            final(self).position() == old(self).position() + 1,
            r is Ok <==> expected_chars@.contains(old(self).text()[old(self).position()]),
            r is Ok ==> r->Ok_0 == old(self).text()[old(self).position()],
            r is Err ==> r->Err_0.pos == byte_offset_of(old(self).text(), old(self).position()),
    {
        let at = self.byte_offset();
        let c = self.next();
        let options = chars_of(expected_chars);
        let mut i: usize = 0;
        while i < options.len()
            invariant
                i <= options@.len(),
                options@ == expected_chars@,
                forall|j: int| 0 <= j < i ==> options@[j] != c,
                self.wf(),
                self.text() == old(self).text(),
                self.position() == old(self).position() + 1,
                c == old(self).text()[old(self).position()],
            decreases options@.len() - i,
        {
            if options[i] == c {
                return Ok(c);
            }
            i += 1;
        }
        let expected = String::from_str(expected_chars);
        Err(ParseError { pos: at, kind: ParseErrorKind::ExpectedOneOf { options: expected, found: c } })
    }

    /// Reads `s`, which must come next.
    pub fn next_expect_str(&mut self, s: &str) -> (r: Result<(), ParseError>)
        requires
            old(self).wf(),
        ensures
            final(self).wf(),
            final(self).text() == old(self).text(),
            r is Ok <==> starts_at(old(self).text(), old(self).position(), s@),
            r is Ok ==> final(self).position() == old(self).position() + s@.len(),
            r is Err ==> final(self).position() == old(self).position() && r->Err_0.pos
                == byte_offset_of(old(self).text(), old(self).position()),
    {
        if self.starts_with(s) {
            let n = s.unicode_len();
            self.pos = self.pos + n;
            Ok(())
        } else {
            Err(
                ParseError {
                    pos: self.byte_offset(),
                    kind: ParseErrorKind::ExpectedText { text: String::from_str(s) },
                },
            )
        }
    }

    /// Whether the whole text has been read.
    pub fn eof(&self) -> (r: bool)
        requires
            self.wf(),
        ensures
            r == (self.position() >= self.text().len()),
    {
        self.pos >= self.chars.len()
    }

    /// Reads characters while `test` accepts them; returns what was read.
    pub fn next_while<F: Fn(char) -> bool>(&mut self, test: F) -> (r: String)
        requires
            old(self).wf(),
            forall|c: char| test.requires((c,)),
        ensures
            final(self).wf(),
            final(self).text() == old(self).text(),
            old(self).position() <= final(self).position() <= old(self).text().len(),
            r@ == old(self).text().subrange(old(self).position(), final(self).position()),
            forall|i: int|
                old(self).position() <= i < final(self).position() ==> test.ensures(
                    (#[trigger] old(self).text()[i],),
                    true,
                ),
            final(self).position() < old(self).text().len() ==> test.ensures(
                (old(self).text()[final(self).position()],),
                false,
            ),
    {
        let start = self.pos;
        let mut result: Vec<char> = Vec::new();
        while self.pos < self.chars.len()
            invariant
                self.wf(),
                self.input == old(self).input,
                self.chars == old(self).chars,
                start == old(self).pos,
                start <= self.pos <= self.chars@.len(),
                forall|c: char| test.requires((c,)),
                result@ == self.chars@.subrange(start as int, self.pos as int),
                forall|i: int|
                    start <= i < self.pos ==> test.ensures((#[trigger] self.chars@[i],), true),
            ensures
                self.wf(),
                self.input == old(self).input,
                self.chars == old(self).chars,
                start <= self.pos <= self.chars@.len(),
                result@ == self.chars@.subrange(start as int, self.pos as int),
                forall|i: int|
                    start <= i < self.pos ==> test.ensures((#[trigger] self.chars@[i],), true),
                self.pos < self.chars@.len() ==> test.ensures((self.chars@[self.pos as int],), false),
            decreases self.chars@.len() - self.pos,
        {
            let c = self.chars[self.pos];
            if !test(c) {
                break ;
            }
            result.push(c);
            self.pos = self.pos + 1;
            proof {
                assert(result@ =~= self.chars@.subrange(start as int, self.pos as int));
            }
        }
        string_of(&result)
    }

    /// Whether `s` comes next.
    pub fn starts_with(&self, s: &str) -> (r: bool)
        requires
            self.wf(),
        ensures
            r == starts_at(self.text(), self.position(), s@),
    {
        let want = chars_of(s);
        if want.len() > self.chars.len() - self.pos {
            return false;
        }
        let mut i: usize = 0;
        while i < want.len()
            invariant
                self.wf(),
                want@ == s@,
                want@.len() <= self.chars@.len() - self.pos,
                i <= want@.len(),
                forall|j: int| 0 <= j < i ==> self.chars@[self.pos + j] == want@[j],
            decreases want@.len() - i,
        {
            if self.chars[self.pos + i] != want[i] {
                return false;
            }
            i += 1;
        }
        proof {
            assert(self.chars@.subrange(self.pos as int, self.pos + want@.len()) =~= want@);
        }
        true
    }

    /// Reads whitespace, up to the next other character or the end.
    pub fn consume_whitespace(&mut self)
        requires
            old(self).wf(),
        ensures
            final(self).wf(),
            final(self).text() == old(self).text(),
            old(self).position() <= final(self).position() <= old(self).text().len(),
            forall|i: int|
                old(self).position() <= i < final(self).position() ==> is_space(
                    #[trigger] old(self).text()[i],
                ),
            final(self).position() < old(self).text().len() ==> !is_space(
                old(self).text()[final(self).position()],
            ),
    {
        let _ = self.next_while(|c: char| -> (b: bool)
            ensures
                b == is_space(c),
            { is_whitespace(c) });
    }

    /// Reads a run of ASCII letters and digits.
    pub fn parse_name(&mut self) -> (r: String)
        requires
            old(self).wf(),
        ensures
            final(self).wf(),
            final(self).text() == old(self).text(),
            old(self).position() <= final(self).position() <= old(self).text().len(),
            r@ == old(self).text().subrange(old(self).position(), final(self).position()),
            forall|i: int|
                old(self).position() <= i < final(self).position() ==> is_name_char(
                    #[trigger] old(self).text()[i],
                ),
            final(self).position() < old(self).text().len() ==> !is_name_char(
                old(self).text()[final(self).position()],
            ),
    {
        self.next_while(|c: char| -> (b: bool)
            ensures
                b == is_name_char(c),
            { ('A' <= c && c <= 'Z') || ('a' <= c && c <= 'z') || ('0' <= c && c <= '9') })
    }

    /// An error at the current position, for `reason`.
    pub fn parsing_error(&self, reason: String) -> (r: ParseError)
        requires
            self.wf(),
        ensures
            r.pos == byte_offset_of(self.text(), self.position()),
            r.kind == (ParseErrorKind::Other { reason }),
    {
        ParseError { pos: self.byte_offset(), kind: ParseErrorKind::Other { reason } }
    }
}

/// `s` stands in `text` from position `p` on.
pub open spec fn starts_at(text: Seq<char>, p: int, s: Seq<char>) -> bool {
    p + s.len() <= text.len() && text.subrange(p, p + s.len()) == s
}

pub open spec fn is_name_char(c: char) -> bool {
    ('A' <= c && c <= 'Z') || ('a' <= c && c <= 'z') || ('0' <= c && c <= '9')
}

} // verus!
