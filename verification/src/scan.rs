//! Character-level scanning shared by the two parsers: character classes,
//! the end of a maximal run of a class, and a cursor over an input string.

use vstd::prelude::*;
use vstd::string::*;

verus! {

/// The classes of characters the parsers scan runs of.
#[derive(Clone, Copy)]
pub enum CharClass {
    /// Whitespace.
    Space,
    /// Anything but whitespace.
    NonSpace,
    /// Any character other than the given one.
    NotChar(char),
    /// A character of a markup tag or attribute name: ASCII letter, digit or hyphen.
    MarkupName,
    /// A character of a stylesheet identifier: ASCII letter, digit, hyphen or underscore.
    StyleName,
    /// A character of a numeric literal: ASCII digit or dot.
    Numeric,
}

/// The characters with the Unicode White_Space property.
pub open spec fn is_space(c: char) -> bool {
    let u = c as u32;
    u == 0x09 || u == 0x0A || u == 0x0B || u == 0x0C || u == 0x0D || u == 0x20 || u == 0x85
        || u == 0xA0 || u == 0x1680 || (0x2000 <= u && u <= 0x200A) || u == 0x2028 || u == 0x2029
        || u == 0x202F || u == 0x205F || u == 0x3000
}

pub open spec fn is_letter(c: char) -> bool {
    (97 <= c as u32 && c as u32 <= 122) || (65 <= c as u32 && c as u32 <= 90)
}

pub open spec fn is_digit(c: char) -> bool {
    48 <= c as u32 && c as u32 <= 57
}

pub open spec fn is_markup_name_char(c: char) -> bool {
    is_letter(c) || is_digit(c) || c == '-'
}

pub open spec fn is_style_name_char(c: char) -> bool {
    is_letter(c) || is_digit(c) || c == '-' || c == '_'
}

pub open spec fn is_numeric_char(c: char) -> bool {
    is_digit(c) || c == '.'
}

pub open spec fn class_holds(k: CharClass, c: char) -> bool {
    match k {
        CharClass::Space => is_space(c),
        CharClass::NonSpace => !is_space(c),
        CharClass::NotChar(q) => c != q,
        CharClass::MarkupName => is_markup_name_char(c),
        CharClass::StyleName => is_style_name_char(c),
        CharClass::Numeric => is_numeric_char(c),
    }
}

pub(crate) fn space_check(c: char) -> (r: bool)
    ensures
        r == is_space(c),
{
    let u = c as u32;
    u == 0x09 || u == 0x0A || u == 0x0B || u == 0x0C || u == 0x0D || u == 0x20 || u == 0x85
        || u == 0xA0 || u == 0x1680 || (0x2000 <= u && u <= 0x200A) || u == 0x2028 || u == 0x2029
        || u == 0x202F || u == 0x205F || u == 0x3000
}

pub(crate) fn class_check(k: CharClass, c: char) -> (r: bool)
    ensures
        r == class_holds(k, c),
{
    let u = c as u32;
    match k {
        CharClass::Space => space_check(c),
        CharClass::NonSpace => !space_check(c),
        CharClass::NotChar(q) => c != q,
        CharClass::MarkupName => {
            (97 <= u && u <= 122) || (65 <= u && u <= 90) || (48 <= u && u <= 57) || c == '-'
        },
        CharClass::StyleName => {
            (97 <= u && u <= 122) || (65 <= u && u <= 90) || (48 <= u && u <= 57) || c == '-'
                || c == '_'
        },
        CharClass::Numeric => (48 <= u && u <= 57) || c == '.',
    }
}

/// The position just past the maximal run of characters of class `k`
/// that starts at `pos` in `s`.
pub open spec fn take_end(s: Seq<char>, pos: int, k: CharClass) -> int
    decreases s.len() - pos,
{
    if pos < s.len() && class_holds(k, s[pos]) {
        take_end(s, pos + 1, k)
    } else {
        pos
    }
}

pub proof fn lemma_take_end(s: Seq<char>, pos: int, k: CharClass)
    requires
        0 <= pos <= s.len(),
    ensures
        pos <= take_end(s, pos, k) <= s.len(),
        forall|i: int| pos <= i < take_end(s, pos, k) ==> class_holds(k, s[i]),
        take_end(s, pos, k) < s.len() ==> !class_holds(k, s[take_end(s, pos, k)]),
    decreases s.len() - pos,
{
    if pos < s.len() && class_holds(k, s[pos]) {
        lemma_take_end(s, pos + 1, k);
    }
}

/// A cursor into an input string; `pos` counts characters, not bytes.
pub(crate) struct Cursor {
    pub(crate) input: String,
    pub(crate) pos: usize,
}

impl Cursor {
    /// The character sequence being scanned.
    pub(crate) open spec fn s(&self) -> Seq<char> {
        self.input@
    }

    /// The cursor has not run past the end of the input.
    pub(crate) open spec fn wf(&self) -> bool {
        self.pos <= self.s().len()
    }

    pub(crate) fn new(input: String) -> (c: Cursor)
        ensures
            c.s() == input@,
            c.pos == 0,
            c.wf(),
    {
        Cursor { input, pos: 0 }
    }

    pub(crate) fn eof(&self) -> (r: bool)
        requires
            self.wf(),
        ensures
            r == (self.pos == self.s().len()),
            self.s().len() <= usize::MAX,
    {
        self.pos >= self.input.as_str().unicode_len()
    }

    pub(crate) fn next_char(&self) -> (c: char)
        requires
            self.wf(),
            self.pos < self.s().len(),
        ensures
            c == self.s()[self.pos as int],
    {
        self.input.as_str().get_char(self.pos)
    }

    pub(crate) fn consume_char(&mut self) -> (c: char)
        requires
            old(self).wf(),
            old(self).pos < old(self).s().len(),
        ensures
            final(self).s() == old(self).s(),
            final(self).pos == old(self).pos + 1,
            final(self).wf(),
            c == old(self).s()[old(self).pos as int],
    {
        let c = self.input.as_str().get_char(self.pos);
        let n: usize = self.input.as_str().unicode_len();
        proof {
            assert(self.pos < n);
        }
        self.pos = self.pos + 1;
        c
    }

    /// Advance past the maximal run of characters of class `k` and return it.
    pub(crate) fn consume_while(&mut self, k: CharClass) -> (r: String)
        requires
            old(self).wf(),
        ensures
            final(self).s() == old(self).s(),
            final(self).pos == take_end(old(self).s(), old(self).pos as int, k),
            old(self).pos <= final(self).pos,
            final(self).wf(),
            r@ == final(self).s().subrange(old(self).pos as int, final(self).pos as int),
    {
        let ghost start = self.pos as int;
        let from = self.pos;
        loop
            invariant
                self.s() == old(self).s(),
                start <= self.pos <= self.s().len(),
                from == start,
                take_end(self.s(), start, k) == take_end(self.s(), self.pos as int, k),
            ensures
                self.s() == old(self).s(),
                start <= self.pos <= self.s().len(),
                from == start,
                self.pos as int == take_end(self.s(), start, k),
            decreases self.s().len() - self.pos,
        {
            if self.eof() {
                break;
            }
            let c = self.next_char();
            if !class_check(k, c) {
                break;
            }
            self.pos = self.pos + 1;
        }
        let sub = self.input.as_str().substring_char(from, self.pos);
        sub.to_owned()
    }

    /// Advance past the maximal run of whitespace.
    pub(crate) fn skip_whitespace(&mut self)
        requires
            old(self).wf(),
        ensures
            final(self).s() == old(self).s(),
            final(self).pos == take_end(old(self).s(), old(self).pos as int, CharClass::Space),
            old(self).pos <= final(self).pos,
            final(self).wf(),
    {
        let ghost start = self.pos as int;
        loop
            invariant
                self.s() == old(self).s(),
                start <= self.pos <= self.s().len(),
                take_end(self.s(), start, CharClass::Space) == take_end(
                    self.s(),
                    self.pos as int,
                    CharClass::Space,
                ),
            ensures
                self.s() == old(self).s(),
                start <= self.pos <= self.s().len(),
                self.pos as int == take_end(self.s(), start, CharClass::Space),
            decreases self.s().len() - self.pos,
        {
            if self.eof() {
                break;
            }
            let c = self.next_char();
            if !class_check(CharClass::Space, c) {
                break;
            }
            self.pos = self.pos + 1;
        }
    }
}

/// Whether the closing-tag opener `</` stands at `pos` in `s`.
pub open spec fn close_opener_at(s: Seq<char>, pos: int) -> bool {
    pos + 2 <= s.len() && s[pos] == '<' && s[pos + 1] == '/'
}

impl Cursor {
    pub(crate) fn at_close_opener(&self) -> (r: bool)
        requires
            self.wf(),
        ensures
            r == close_opener_at(self.s(), self.pos as int),
    {
        if self.pos >= self.input.as_str().unicode_len() {
            return false;
        }
        if self.input.as_str().get_char(self.pos) != '<' {
            return false;
        }
        if self.pos + 1 >= self.input.as_str().unicode_len() {
            return false;
        }
        self.input.as_str().get_char(self.pos + 1) == '/'
    }
}

/// The views of a sequence of strings.
pub open spec fn views_of(s: Seq<String>) -> Seq<Seq<char>> {
    s.map_values(|t: String| t@)
}

/// The whitespace-separated tokens of `s` from `pos` on: the maximal
/// nonempty runs of non-whitespace characters, in order. Leading,
/// trailing or repeated whitespace contributes nothing.
pub open spec fn tokens_from(s: Seq<char>, pos: int) -> Seq<Seq<char>>
    decreases s.len() - pos,
{
    if !(0 <= pos < s.len()) {
        Seq::empty()
    } else if is_space(s[pos]) {
        tokens_from(s, pos + 1)
    } else {
        let e = take_end(s, pos, CharClass::NonSpace);
        if pos < e <= s.len() {
            seq![s.subrange(pos, e)] + tokens_from(s, e)
        } else {
            Seq::empty()
        }
    }
}

/// Skipping whitespace does not change the tokens that follow.
proof fn lemma_tokens_skip_space(s: Seq<char>, pos: int)
    requires
        0 <= pos <= s.len(),
    ensures
        tokens_from(s, pos) == tokens_from(s, take_end(s, pos, CharClass::Space)),
    decreases s.len() - pos,
{
    if pos < s.len() && is_space(s[pos]) {
        lemma_tokens_skip_space(s, pos + 1);
    }
}

/// The whitespace-separated tokens of a string, empties excluded.
pub(crate) fn whitespace_tokens(s: &String) -> (r: Vec<String>)
    ensures
        views_of(r@) == tokens_from(s@, 0),
{
    let mut cur = Cursor::new(s.clone());
    let mut r: Vec<String> = Vec::new();
    proof {
        assert(views_of(r@) =~= Seq::<Seq<char>>::empty());
    }
    loop
        invariant_except_break
            views_of(r@) + tokens_from(s@, cur.pos as int) == tokens_from(s@, 0),
        invariant
            cur.s() == s@,
            cur.wf(),
        ensures
            views_of(r@) == tokens_from(s@, 0),
        decreases cur.s().len() - cur.pos,
    {
        let ghost p0 = cur.pos as int;
        cur.skip_whitespace();
        proof {
            lemma_tokens_skip_space(s@, p0);
            lemma_take_end(s@, p0, CharClass::Space);
        }
        if cur.eof() {
            proof {
                assert(views_of(r@) + tokens_from(s@, cur.pos as int) =~= views_of(r@));
            }
            break;
        }
        let ghost p1 = cur.pos as int;
        let tok = cur.consume_while(CharClass::NonSpace);
        proof {
            lemma_take_end(s@, p1 + 1, CharClass::NonSpace);
        }
        let ghost prev = r@;
        r.push(tok);
        proof {
            assert(views_of(r@) =~= views_of(prev) + seq![tok@]);
            assert(tokens_from(s@, p1) == seq![tok@] + tokens_from(s@, cur.pos as int));
        }
    }
    r
}

/// Character-by-character string equality, stated over the views.
pub(crate) fn str_eq(a: &str, b: &str) -> (r: bool)
    ensures
        r == (a@ == b@),
{
    let la = a.unicode_len();
    let lb = b.unicode_len();
    if la != lb {
        return false;
    }
    let mut i: usize = 0;
    while i < la
        invariant
            la == a@.len(),
            lb == b@.len(),
            la == lb,
            i <= la,
            forall|j: int| 0 <= j < i ==> a@[j] == b@[j],
        decreases la - i,
    {
        if a.get_char(i) != b.get_char(i) {
            return false;
        }
        i = i + 1;
    }
    proof {
        assert(a@ =~= b@);
    }
    true
}

} // verus!
