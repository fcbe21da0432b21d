//! Source files, byte spans and line/column mapping.
use vstd::prelude::*;
use crate::text::{chars_of, utf8_len, utf8_len_char, utf8_len_seq};
use vstd::utf8::{is_char_boundary, encode_utf8, decode_utf8};
use vstd::string::StringSliceAdditionalSpecFns;

verus! {

#[derive(Debug, Clone, Copy, PartialEq, Eq, Hash, Structural)]
pub struct SourceId(pub u32);

#[derive(Debug, Clone, Copy, PartialEq, Eq, Hash, Structural)]
pub struct Span {
    pub start: u32,
    pub end: u32,
}

impl Span {
    pub fn new(start: u32, end: u32) -> (s: Span)
        ensures
            s.start == start,
            s.end == end,
    {
        Span { start, end }
    }
}

#[derive(Debug, Clone)]
pub struct SourceFile {
    pub id: SourceId,
    pub name: String,
    pub source: String,
}

/// Line and column (both counted from zero, the column in characters) of the
/// character that begins at byte `offset` of `s`, where `i` characters and
/// `b` bytes have been passed so far on line `line`, column `col`.
/// When no character begins at `offset`, the position after the last
/// character is given.
pub open spec fn line_col_from(s: Seq<char>, offset: int, i: int, b: int, line: nat, col: nat) -> (nat, nat)
    decreases s.len() - i,
{
    if i >= s.len() {
        (line, col)
    } else if b == offset {
        (line, col)
    } else if s[i] == '\n' {
        line_col_from(s, offset, i + 1, b + utf8_len_char(s[i]), line + 1, 0)
    } else {
        line_col_from(s, offset, i + 1, b + utf8_len_char(s[i]), line, col + 1)
    }
}

/// Line and column of byte `offset` in `s`.
pub open spec fn spec_line_col(s: Seq<char>, offset: int) -> (nat, nat) {
    line_col_from(s, offset, 0, 0, 0, 0)
}

/// The number of newlines among `t`.
pub open spec fn newlines(t: Seq<char>) -> nat
    decreases t.len(),
{
    if t.len() == 0 {
        0
    } else {
        newlines(t.drop_last()) + if t.last() == '\n' { 1nat } else { 0nat }
    }
}

/// The number of characters of `t` after its last newline (all of them where
/// it has none).
pub open spec fn since_newline(t: Seq<char>) -> nat
    decreases t.len(),
{
    if t.len() == 0 {
        0
    } else if t.last() == '\n' {
        0
    } else {
        since_newline(t.drop_last()) + 1
    }
}

/// The index of the first character of `s` from `i` on that begins at byte
/// `offset`, where character `i` begins at byte `b`; `s.len()` where none does.
pub open spec fn char_at_byte(s: Seq<char>, offset: int, i: int, b: int) -> int
    decreases s.len() - i,
{
    if i >= s.len() || b == offset {
        i
    } else {
        char_at_byte(s, offset, i + 1, b + utf8_len_char(s[i]))
    }
}

proof fn lemma_line_col_from(s: Seq<char>, offset: int, i: int, b: int, line: nat, col: nat)
    requires
        0 <= i <= s.len(),
        line == newlines(s.take(i)),
        col == since_newline(s.take(i)),
    ensures
        line_col_from(s, offset, i, b, line, col) == (
            newlines(s.take(char_at_byte(s, offset, i, b))),
            since_newline(s.take(char_at_byte(s, offset, i, b))),
        ),
    decreases s.len() - i,
{
    if i < s.len() && b != offset {
        assert(s.take(i + 1).drop_last() =~= s.take(i));
        assert(s.take(i + 1).last() == s[i]);
        if s[i] == '\n' {
            lemma_line_col_from(s, offset, i + 1, b + utf8_len_char(s[i]), line + 1, 0);
        } else {
            lemma_line_col_from(s, offset, i + 1, b + utf8_len_char(s[i]), line, col + 1);
        }
    }
}

/// The line of byte `offset` is the number of newlines before the character
/// that begins there, and its column the number of characters between the
/// last of those newlines and that character.
pub proof fn lemma_line_col_closed_form(s: Seq<char>, offset: int)
    ensures
        spec_line_col(s, offset) == (
            newlines(s.take(char_at_byte(s, offset, 0, 0))),
            since_newline(s.take(char_at_byte(s, offset, 0, 0))),
        ),
{
    assert(s.take(0) =~= Seq::<char>::empty());
    lemma_line_col_from(s, offset, 0, 0, 0, 0);
}

proof fn lemma_prefix_bytes_grow(s: Seq<char>, i: int, j: int)
    requires
        0 <= i < j <= s.len(),
    ensures
        utf8_len_seq(s.take(j)) > utf8_len_seq(s.take(i)),
{
    let t = s.take(j);
    crate::text::lemma_utf8_len_split(t, i);
    assert(t.take(i) =~= s.take(i));
    crate::text::lemma_utf8_len_nonneg(t.skip(i));
}

proof fn lemma_char_at_byte(s: Seq<char>, offset: int, i: int, b: int, j: int)
    requires
        0 <= i <= j <= s.len(),
        b == utf8_len_seq(s.take(i)),
        utf8_len_seq(s.take(j)) == offset,
    ensures
        char_at_byte(s, offset, i, b) == j,
    decreases j - i,
{
    if i < j {
        lemma_prefix_bytes_grow(s, i, j);
        assert(s.take(i + 1).drop_last() =~= s.take(i));
        assert(s.take(i + 1).last() == s[i]);
        lemma_char_at_byte(s, offset, i + 1, b + utf8_len_char(s[i]), j);
    }
}

/// At the byte offset where the first `k` characters of `s` end, the line
/// is the number of newlines among those characters, and the column the
/// number of them after the last newline.
pub proof fn lemma_line_col_of_prefix(s: Seq<char>, k: int)
    requires
        0 <= k <= s.len(),
    ensures
        spec_line_col(s, utf8_len_seq(s.take(k))) == (newlines(s.take(k)), since_newline(s.take(k))),
{
    assert(s.take(0) =~= Seq::<char>::empty());
    lemma_char_at_byte(s, utf8_len_seq(s.take(k)), 0, 0, k);
    lemma_line_col_closed_form(s, utf8_len_seq(s.take(k)));
}

impl SourceFile {
    pub fn new(id: SourceId, name: String, source: String) -> (f: SourceFile)
        ensures
            f.id == id,
            f.name@ == name@,
            f.source@ == source@,
    {
        SourceFile { id, name, source }
    }

    /// The text of a span whose ends are character boundaries of the source.
    pub fn text(&self, span: Span) -> (t: &str)
        requires
            span.start <= span.end <= encode_utf8(self.source@).len(),
            is_char_boundary(encode_utf8(self.source@), span.start as int),
            is_char_boundary(encode_utf8(self.source@), span.end as int),
        ensures
            t@ == decode_utf8(encode_utf8(self.source@).subrange(span.start as int, span.end as int)),
            encode_utf8(t@) == encode_utf8(self.source@).subrange(span.start as int, span.end as int),
            encode_utf8(t@).len() == span.end - span.start,
    {
        let src = self.source.as_str();
        let start = span.start as usize;
        let end = span.end as usize;
        let (_, tail) = src.split_at(start);
        proof {
            let b = src.spec_bytes();
            vstd::utf8::encode_utf8_valid_utf8(src@);
            vstd::utf8::valid_utf8_split(b, start as int);
            let tb = b.subrange(start as int, b.len() as int);
            assert(tail.spec_bytes() == tb);
            if end - start < tb.len() {
                vstd::utf8::is_char_boundary_iff_not_is_continuation_byte(b, end as int);
                vstd::utf8::is_char_boundary_iff_not_is_continuation_byte(tb, end - start);
                assert(tb[end - start] == b[end as int]);
            } else {
                vstd::utf8::is_char_boundary_start_end_of_seq(tb);
            }
        }
        let (mid, _) = tail.split_at(end - start);
        proof {
            assert(mid.spec_bytes() =~= src.spec_bytes().subrange(start as int, end as int));
            vstd::utf8::encode_utf8_decode_utf8(mid@);
        }
        mid
    }

    /// The line and column of byte `offset`, as `spec_line_col` states.
    pub fn line_col(&self, offset: u32) -> (r: (usize, usize))
        requires
            self.source@.len() < usize::MAX,
        ensures
            r.0 as nat == spec_line_col(self.source@, offset as int).0,
            r.1 as nat == spec_line_col(self.source@, offset as int).1,
    {
        let chars = chars_of(self.source.as_str());
        let ghost s = self.source@;
        let mut i: usize = 0;
        let mut b: u128 = 0;
        let mut line: usize = 0;
        let mut col: usize = 0;
        while i < chars.len()
            invariant
                chars@ == s,
                s == self.source@,
                s.len() < usize::MAX,
                i <= chars.len(),
                line <= i,
                col <= i,
                b <= 4 * i,
                line_col_from(s, offset as int, i as int, b as int, line as nat, col as nat)
                    == spec_line_col(s, offset as int),
            decreases chars.len() - i,
        {
            if b == offset as u128 {
                assert(line_col_from(s, offset as int, i as int, b as int, line as nat, col as nat)
                    == (line as nat, col as nat));
                return (line, col);
            }
            let c = chars[i];
            let w = utf8_len(c);
            if c == '\n' {
                line = line + 1;
                col = 0;
            } else {
                col = col + 1;
            }
            b = b + w as u128;
            i = i + 1;
        }
        (line, col)
    }
}

} // verus!
