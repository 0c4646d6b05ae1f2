//! A cursor over the text that is still to be read.

use crate::rational::is_digit;
use vstd::prelude::*;
use vstd::string::*;

verus! {

/// `c` is white space: one of the characters that Unicode counts as such.
pub open spec fn is_space(c: char) -> bool {
    let u = c as u32;
    ||| 0x09 <= u <= 0x0D
    ||| u == 0x20
    ||| u == 0x85
    ||| u == 0xA0
    ||| u == 0x1680
    ||| 0x2000 <= u <= 0x200A
    ||| u == 0x2028
    ||| u == 0x2029
    ||| u == 0x202F
    ||| u == 0x205F
    ||| u == 0x3000
}

/// `c` is one of `a` to `z` or `A` to `Z`.
pub open spec fn is_letter(c: char) -> bool {
    let u = c as u32;
    0x41 <= u <= 0x5A || 0x61 <= u <= 0x7A
}

/// `c` is a letter or a decimal digit.
pub open spec fn is_alphanumeric(c: char) -> bool {
    is_letter(c) || is_digit(c)
}

/// `s` without the white space at its start.
pub open spec fn skip_spaces(s: Seq<char>) -> Seq<char>
    decreases s.len(),
{
    if s.len() > 0 && is_space(s[0]) {
        skip_spaces(s.drop_first())
    } else {
        s
    }
}

/// Skipping white space never makes a text longer, and leaves none at the start.
pub proof fn lemma_skip_spaces(s: Seq<char>)
    ensures
        skip_spaces(s).len() <= s.len(),
        skip_spaces(s).len() > 0 ==> !is_space(skip_spaces(s)[0]),
        skip_spaces(skip_spaces(s)) == skip_spaces(s),
    decreases s.len(),
{
    if s.len() > 0 && is_space(s[0]) {
        lemma_skip_spaces(s.drop_first());
    }
}

/// Whether `c` is white space.
pub fn char_is_space(c: char) -> (b: bool)
    ensures
        b == is_space(c),
{
    let u = c as u32;
    (0x09 <= u && u <= 0x0D) || u == 0x20 || u == 0x85 || u == 0xA0 || u == 0x1680 || (0x2000 <= u
        && u <= 0x200A) || u == 0x2028 || u == 0x2029 || u == 0x202F || u == 0x205F || u == 0x3000
}

/// Whether `c` is one of `a` to `z` or `A` to `Z`.
pub fn char_is_letter(c: char) -> (b: bool)
    ensures
        b == is_letter(c),
{
    let u = c as u32;
    (0x41 <= u && u <= 0x5A) || (0x61 <= u && u <= 0x7A)
}

/// Whether `c` is one of `0` to `9`.
pub fn char_is_digit(c: char) -> (b: bool)
    ensures
        b == is_digit(c),
{
    let u = c as u32;
    0x30 <= u && u <= 0x39
}

/// The text that is still to be read.
pub struct Stream<'a>(&'a str);

impl<'a> View for Stream<'a> {
    type V = Seq<char>;

    closed spec fn view(&self) -> Seq<char> {
        self.0@
    }
}

impl<'a> Stream<'a> {
    /// A cursor at the start of `input`.
    pub fn new(input: &'a str) -> (s: Self)
        ensures
            s@ == input@,
    {
        Stream(input)
    }

    /// Moves past the white space at the start.
    pub fn trim_start(&mut self)
        ensures
            final(self)@ == skip_spaces(old(self)@),
    {
        let len = self.0.unicode_len();
        let ghost text = self.0@;
        let mut i: usize = 0;
        assert(text.skip(0) == text);
        loop
            invariant
                i <= len,
                len == text.len(),
                text == self.0@,
                skip_spaces(text.skip(i as int)) == skip_spaces(text),
            ensures
                i <= len,
                text.skip(i as int) == skip_spaces(text),
            decreases len - i,
        {
            if i >= len {
                break ;
            }
            if !char_is_space(self.0.get_char(i)) {
                break ;
            }
            assert(text.skip(i as int).drop_first() == text.skip(i + 1));
            i += 1;
        }
        self.0 = self.0.substring_char(i, len);
    }

    /// Moves past white space, then past `arg` if it comes next, and says
    /// whether it did. Letters and digits are not taken this way.
    pub fn take_char(&mut self, arg: char) -> (taken: bool)
        requires
            !is_alphanumeric(arg),
        ensures
            taken == (skip_spaces(old(self)@).len() > 0 && skip_spaces(old(self)@)[0] == arg),
            taken ==> final(self)@ == skip_spaces(old(self)@).drop_first(),
            !taken ==> final(self)@ == skip_spaces(old(self)@),
    {
        self.trim_start();
        if self.0.is_empty() {
            return false;
        }
        if self.0.get_char(0) == arg {
            let len = self.0.unicode_len();
            self.0 = self.0.substring_char(1, len);
            true
        } else {
            false
        }
    }

    /// Moves past white space, then past every character that `f` accepts,
    /// up to the first that it refuses, and returns the characters passed.
    pub fn parse_all_matching<F: Fn(&char) -> bool>(&mut self, f: F) -> (out: &'a str)
        requires
            forall|c: char| call_requires(f, (&c,)),
        ensures
            out@ + final(self)@ == skip_spaces(old(self)@),
            forall|i: int| 0 <= i < out@.len() ==> call_ensures(f, (&#[trigger] out@[i],), true),
            final(self)@.len() > 0 ==> call_ensures(f, (&final(self)@[0],), false),
    {
        self.trim_start();
        let len = self.0.unicode_len();
        let ghost text = self.0@;
        let mut end: usize = 0;
        loop
            invariant
                end <= len,
                len == text.len(),
                text == self.0@,
                forall|c: char| call_requires(f, (&c,)),
                forall|i: int| 0 <= i < end ==> call_ensures(f, (&#[trigger] text[i],), true),
            ensures
                end <= len,
                forall|i: int| 0 <= i < end ==> call_ensures(f, (&#[trigger] text[i],), true),
                end < len ==> call_ensures(f, (&text[end as int],), false),
            decreases len - end,
        {
            if end >= len {
                break ;
            }
            let c = self.0.get_char(end);
            if !f(&c) {
                break ;
            }
            end += 1;
        }
        let output = self.0.substring_char(0, end);
        self.0 = self.0.substring_char(end, len);
        assert(output@ + self.0@ =~= text);
        output
    }

    /// Moves past white space and shows the next character without taking it.
    pub fn peek_char(&mut self) -> (next: Option<char>)
        ensures
            final(self)@ == skip_spaces(old(self)@),
            next == if final(self)@.len() > 0 {
                Some(final(self)@[0])
            } else {
                None
            },
    {
        self.trim_start();
        if self.0.is_empty() {
            None
        } else {
            Some(self.0.get_char(0))
        }
    }

    /// Ends the reading: fine where only white space is left, else the text
    /// that was not read.
    pub fn finish(self) -> (rest: Result<(), &'a str>)
        ensures
            rest is Ok <==> skip_spaces(self@).len() == 0,
            rest is Err ==> rest->Err_0@ == skip_spaces(self@),
    {
        let mut stream = self;
        stream.trim_start();
        if stream.0.is_empty() {
            Ok(())
        } else {
            Err(stream.0)
        }
    }
}

} // verus!
