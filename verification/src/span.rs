use vstd::prelude::*;

use crate::text::{col_after, find_at, find_sub_at, has_prefix, matches_at, nl_count};
use crate::text::{
    lemma_col_after_step,
    lemma_find_at,
    lemma_find_at_pins,
    lemma_find_sub_at,
    lemma_nl_count_step,
};

verus! {

/// A slice of source text that carries its location in the original buffer:
/// the character offset, the 1-based line number and the 1-based column.
/// Location is metadata: two spans are equal when their text is equal.
#[derive(Debug)]
#[verifier::type_invariant]
pub struct Span {
    text: String,
    offset: usize,
    line: usize,
    col: usize,
}

impl View for Span {
    type V = Seq<char>;

    closed spec fn view(&self) -> Seq<char> {
        self.text@
    }
}

impl DeepView for Span {
    type V = Seq<char>;

    open spec fn deep_view(&self) -> Seq<char> {
        self.view()
    }
}

impl Span {
    /// Every span keeps its location fields small enough that slicing,
    /// which advances them by at most the text length, cannot overflow.
    #[verifier::type_invariant]
    closed spec fn location_inv(self) -> bool {
        &&& self.line >= 1
        &&& self.col >= 1
        &&& (self.line - 1) + (self.col - 1) + self.text@.len() <= usize::MAX - 1
        &&& self.offset + self.text@.len() <= usize::MAX - 1
    }

    /// The character offset of the span's first character in the original buffer.
    pub closed spec fn spec_offset(&self) -> nat {
        self.offset as nat
    }

    /// The 1-based line number of the span's first character.
    pub closed spec fn spec_line(&self) -> nat {
        self.line as nat
    }

    /// The 1-based column (in characters) of the span's first character.
    pub closed spec fn spec_col(&self) -> nat {
        self.col as nat
    }

    /// Wrap a whole buffer: location starts at line 1, column 1.
    pub fn new(s: &str) -> (r: Span)
        requires
            s@.len() < usize::MAX,
        ensures
            r@ == s@,
            r.spec_offset() == 0,
            r.spec_line() == 1,
            r.spec_col() == 1,
    {
        Span { text: s.to_owned(), offset: 0, line: 1, col: 1 }
    }

    /// The length of the span's text, in characters.
    pub fn len(&self) -> (r: usize)
        ensures
            r == self@.len(),
    {
        self.text.as_str().unicode_len()
    }

    pub fn is_empty(&self) -> (r: bool)
        ensures
            r == (self@.len() == 0),
    {
        self.len() == 0
    }

    /// An owned copy of the span's text.
    pub fn text(&self) -> (r: String)
        ensures
            r@ == self@,
    {
        self.text.clone()
    }

    /// The character offset in the original buffer.
    pub fn offset(&self) -> (r: usize)
        ensures
            r == self.spec_offset(),
    {
        self.offset
    }

    /// The 1-based line number.
    pub fn line(&self) -> (r: usize)
        ensures
            r == self.spec_line(),
    {
        self.line
    }

    /// The 1-based column, in characters.
    pub fn column(&self) -> (r: usize)
        ensures
            r == self.spec_col(),
    {
        self.col
    }

    /// The character at index `i`.
    pub fn char_at(&self, i: usize) -> (r: char)
        requires
            i < self@.len(),
        ensures
            r == self@[i as int],
    {
        self.text.as_str().get_char(i)
    }

    /// The suffix starting at character `i`; its location is the location
    /// of that character in the original buffer.
    pub fn slice_from(&self, i: usize) -> (r: Span)
        requires
            i <= self@.len(),
        ensures
            r@ == self@.skip(i as int),
            r.spec_offset() == self.spec_offset() + i,
            r.spec_line() == self.spec_line() + nl_count(self@.take(i as int)),
            r.spec_col() == col_after(self@.take(i as int), self.spec_col()),
    {
        proof {
            use_type_invariant(self);
        }
        let len = self.len();
        let mut line = self.line;
        let mut col = self.col;
        let mut j: usize = 0;
        proof {
            assert(self@.take(0) =~= Seq::<char>::empty());
        }
        while j < i
            invariant
                j <= i <= self@.len(),
                self@ == self.text@,
                line == self.spec_line() + nl_count(self@.take(j as int)),
                col == col_after(self@.take(j as int), self.spec_col()),
                line >= 1,
                col >= 1,
                (line - 1) + (col - 1) + (self@.len() - j) <= usize::MAX - 1,
            decreases i - j,
        {
            let c = self.char_at(j);
            proof {
                lemma_nl_count_step(self@, j as int);
                lemma_col_after_step(self@, j as int, self.spec_col());
            }
            if c == '\n' {
                line = line + 1;
                col = 1;
            } else {
                col = col + 1;
            }
            j = j + 1;
        }
        let text = String::from_str(self.text.as_str().substring_char(i, len));
        let r = Span { text, offset: self.offset + i, line, col };
        proof {
            assert(r@ =~= self@.skip(i as int));
        }
        r
    }

    /// The prefix holding the first `i` characters; same location as `self`.
    pub fn slice_to(&self, i: usize) -> (r: Span)
        requires
            i <= self@.len(),
        ensures
            r@ == self@.take(i as int),
            r.spec_offset() == self.spec_offset(),
            r.spec_line() == self.spec_line(),
            r.spec_col() == self.spec_col(),
    {
        proof {
            use_type_invariant(self);
        }
        let text = String::from_str(self.text.as_str().substring_char(0, i));
        Span { text, offset: self.offset, line: self.line, col: self.col }
    }

    /// The characters in `i..j`; the location is that of character `i`.
    pub fn slice(&self, i: usize, j: usize) -> (r: Span)
        requires
            i <= j <= self@.len(),
        ensures
            r@ == self@.subrange(i as int, j as int),
            r.spec_offset() == self.spec_offset() + i,
            r.spec_line() == self.spec_line() + nl_count(self@.take(i as int)),
            r.spec_col() == col_after(self@.take(i as int), self.spec_col()),
    {
        let tail = self.slice_from(i);
        let r = tail.slice_to(j - i);
        proof {
            assert(r@ =~= self@.subrange(i as int, j as int));
        }
        r
    }

    /// Whether the span's text starts with the literal `p`.
    pub fn starts_with(&self, p: &str) -> (r: bool)
        ensures
            r == has_prefix(self@, p@),
    {
        let p_len = p.unicode_len();
        let len = self.len();
        if p_len > len {
            return false;
        }
        let mut j: usize = 0;
        while j < p_len
            invariant
                j <= p_len == p@.len() <= self@.len(),
                forall|k: int| 0 <= k < j ==> self@[k] == p@[k],
            decreases p_len - j,
        {
            if self.char_at(j) != p.get_char(j) {
                assert(self@.subrange(0, p@.len() as int)[j as int] != p@[j as int]);
                return false;
            }
            j = j + 1;
        }
        proof {
            assert(self@.subrange(0, p@.len() as int) =~= p@);
        }
        true
    }

    /// The index of the first occurrence of `c`, if any.
    pub fn find_char(&self, c: char) -> (r: Option<usize>)
        ensures
            match r {
                Some(k) => k == find_at(self@, 0, c) && k < self@.len(),
                None => find_at(self@, 0, c) == self@.len(),
            },
    {
        let len = self.len();
        let mut j: usize = 0;
        while j < len
            invariant
                j <= len == self@.len(),
                forall|k: int| 0 <= k < j ==> self@[k] != c,
            decreases len - j,
        {
            if self.char_at(j) == c {
                proof {
                    lemma_find_at_pins(self@, 0, c, j as nat);
                }
                return Some(j);
            }
            j = j + 1;
        }
        proof {
            lemma_find_at(self@, 0, c);
        }
        None
    }

    /// The index of the first occurrence of the literal `sub`, if any.
    pub fn find_substring(&self, sub: &str) -> (r: Option<usize>)
        ensures
            match r {
                Some(k) => k == find_sub_at(self@, 0, sub@) && k < self@.len() && matches_at(
                    self@,
                    k as nat,
                    sub@,
                ),
                None => find_sub_at(self@, 0, sub@) == self@.len(),
            },
    {
        let len = self.len();
        let mut j: usize = 0;
        while j < len
            invariant
                j <= len == self@.len(),
                forall|k: nat| k < j ==> !matches_at(self@, k, sub@),
            decreases len - j,
        {
            if self.matches_lit_at(j, sub) {
                proof {
                    lemma_find_sub_at(self@, 0, sub@);
                    lemma_find_sub_at_pins(self@, sub@, j as nat);
                }
                return Some(j);
            }
            j = j + 1;
        }
        proof {
            lemma_find_sub_at(self@, 0, sub@);
        }
        None
    }

    /// Whether the literal `sub` occurs at index `i`.
    fn matches_lit_at(&self, i: usize, sub: &str) -> (r: bool)
        requires
            i <= self@.len(),
        ensures
            r == matches_at(self@, i as nat, sub@),
    {
        let sub_len = sub.unicode_len();
        let len = self.len();
        if sub_len > len - i {
            return false;
        }
        let mut j: usize = 0;
        while j < sub_len
            invariant
                j <= sub_len == sub@.len(),
                i + sub_len <= len == self@.len(),
                forall|k: int| 0 <= k < j ==> self@[i + k] == sub@[k],
            decreases sub_len - j,
        {
            if self.char_at(i + j) != sub.get_char(j) {
                assert(self@.subrange(i as int, i + sub@.len())[j as int] != sub@[j as int]);
                return false;
            }
            j = j + 1;
        }
        proof {
            assert(self@.subrange(i as int, i + sub@.len()) =~= sub@);
        }
        true
    }
}

/// If `sub` matches at `j` and at no earlier index, then `j` is the first match.
proof fn lemma_find_sub_at_pins(s: Seq<char>, sub: Seq<char>, j: nat)
    requires
        j < s.len(),
        matches_at(s, j, sub),
        forall|k: nat| k < j ==> !matches_at(s, k, sub),
    ensures
        find_sub_at(s, 0, sub) == j,
{
    lemma_find_sub_at(s, 0, sub);
    if find_sub_at(s, 0, sub) < j {
        assert(!matches_at(s, find_sub_at(s, 0, sub), sub));
    }
}

impl Clone for Span {
    /// Cloning keeps both the text and the location.
    fn clone(&self) -> (r: Self)
        ensures
            r@ == self@,
            r.spec_offset() == self.spec_offset(),
            r.spec_line() == self.spec_line(),
            r.spec_col() == self.spec_col(),
    {
        proof {
            use_type_invariant(self);
        }
        Span { text: self.text.clone(), offset: self.offset, line: self.line, col: self.col }
    }
}

impl PartialEq for Span {
    /// Spans compare by text alone: location is metadata, not identity.
    fn eq(&self, other: &Self) -> (r: bool) {
        self.text == other.text
    }
}

impl vstd::std_specs::cmp::PartialEqSpecImpl for Span {
    open spec fn obeys_eq_spec() -> bool {
        true
    }

    open spec fn eq_spec(&self, other: &Self) -> bool {
        self@ == other@
    }
}

} // verus!
