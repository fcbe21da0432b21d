//! Character-level helpers shared by the parsers: conversions between
//! `&str`/`String` and character sequences, and UTF-8 byte lengths.
use vstd::prelude::*;

verus! {

pub assume_specification[ String::push ](s: &mut String, ch: char)
    ensures
        final(s)@ == old(s)@.push(ch),
;

/// The characters of a string slice, in order.
pub fn chars_of(s: &str) -> (v: Vec<char>)
    ensures
        v@ == s@,
{
    let mut v: Vec<char> = Vec::new();
    for c in it: s.chars()
        invariant
            v@ == it.seq().take(it.index() as int),
    {
        v.push(c);
    }
    v
}

/// A `String` holding the characters `v[from..to]`.
pub fn string_of(v: &[char], from: usize, to: usize) -> (s: String)
    requires
        from <= to <= v@.len(),
    ensures
        s@ == v@.subrange(from as int, to as int),
{
    let mut s = String::new();
    let mut i = from;
    while i < to
        invariant
            from <= i <= to <= v@.len(),
            s@ == v@.subrange(from as int, i as int),
        decreases to - i,
    {
        s.push(v[i]);
        i = i + 1;
    }
    s
}

} // verus!

verus! {

/// The number of bytes of the UTF-8 encoding of `c`.
pub open spec fn utf8_len_char(c: char) -> int {
    if (c as u32) < 0x80 {
        1
    } else if (c as u32) < 0x800 {
        2
    } else if (c as u32) < 0x10000 {
        3
    } else {
        4
    }
}

/// The number of bytes of the UTF-8 encoding of `s`.
pub open spec fn utf8_len_seq(s: Seq<char>) -> int
    decreases s.len(),
{
    if s.len() == 0 {
        0
    } else {
        utf8_len_seq(s.drop_last()) + utf8_len_char(s.last())
    }
}

pub fn utf8_len(c: char) -> (n: u32)
    ensures
        n as int == utf8_len_char(c),
        1 <= n <= 4,
{
    let u = c as u32;
    if u < 0x80 {
        1
    } else if u < 0x800 {
        2
    } else if u < 0x10000 {
        3
    } else {
        4
    }
}

} // verus!

verus! {

/// Unicode `White_Space`, the set that `char::is_whitespace` tests.
pub open spec fn is_ws(c: char) -> bool {
    let u = c as u32;
    (0x09 <= u <= 0x0d) || u == 0x20 || u == 0x85 || u == 0xa0 || u == 0x1680
        || (0x2000 <= u <= 0x200a) || u == 0x2028 || u == 0x2029 || u == 0x202f
        || u == 0x205f || u == 0x3000
}

pub fn is_whitespace(c: char) -> (b: bool)
    ensures
        b == is_ws(c),
{
    let u = c as u32;
    (0x09 <= u && u <= 0x0d) || u == 0x20 || u == 0x85 || u == 0xa0 || u == 0x1680
        || (0x2000 <= u && u <= 0x200a) || u == 0x2028 || u == 0x2029 || u == 0x202f
        || u == 0x205f || u == 0x3000
}

/// The index of the first element of `s` that satisfies `p`.
pub open spec fn find_pred(s: Seq<char>, p: spec_fn(char) -> bool) -> Option<int>
    decreases s.len(),
{
    if s.len() == 0 {
        None
    } else if p(s[0]) {
        Some(0)
    } else {
        match find_pred(s.drop_first(), p) {
            Some(i) => Some(i + 1),
            None => None,
        }
    }
}

/// The index of the last element of `s` that satisfies `p`.
pub open spec fn rfind_pred(s: Seq<char>, p: spec_fn(char) -> bool) -> Option<int>
    decreases s.len(),
{
    if s.len() == 0 {
        None
    } else if p(s.last()) {
        Some(s.len() - 1)
    } else {
        rfind_pred(s.drop_last(), p)
    }
}

pub proof fn lemma_find_pred(s: Seq<char>, p: spec_fn(char) -> bool)
    ensures
        find_pred(s, p) matches Some(i) ==> 0 <= i < s.len() && p(s[i]) && forall|j: int|
            0 <= j < i ==> !p(#[trigger] s[j]),
        find_pred(s, p) is None ==> forall|j: int| 0 <= j < s.len() ==> !p(#[trigger] s[j]),
    decreases s.len(),
{
    if s.len() > 0 && !p(s[0]) {
        lemma_find_pred(s.drop_first(), p);
        assert forall|j: int| 1 <= j < s.len() implies s[j] == s.drop_first()[j - 1] by {}
    }
}

pub proof fn lemma_find_pred_unique(s: Seq<char>, p: spec_fn(char) -> bool, i: int)
    requires
        0 <= i <= s.len(),
        i < s.len() ==> p(s[i]),
        forall|j: int| 0 <= j < i ==> !p(#[trigger] s[j]),
    ensures
        find_pred(s, p) == (if i < s.len() { Some(i) } else { None::<int> }),
{
    lemma_find_pred(s, p);
}

pub proof fn lemma_rfind_pred(s: Seq<char>, p: spec_fn(char) -> bool)
    ensures
        rfind_pred(s, p) matches Some(i) ==> 0 <= i < s.len() && p(s[i]) && forall|j: int|
            i < j < s.len() ==> !p(#[trigger] s[j]),
        rfind_pred(s, p) is None ==> forall|j: int| 0 <= j < s.len() ==> !p(#[trigger] s[j]),
    decreases s.len(),
{
    if s.len() > 0 && !p(s.last()) {
        lemma_rfind_pred(s.drop_last(), p);
        assert forall|j: int| 0 <= j < s.len() - 1 implies s[j] == s.drop_last()[j] by {}
    }
}

pub proof fn lemma_rfind_pred_unique(s: Seq<char>, p: spec_fn(char) -> bool, k: int)
    requires
        0 <= k <= s.len(),
        k > 0 ==> p(s[k - 1]),
        forall|j: int| k <= j < s.len() ==> !p(#[trigger] s[j]),
    ensures
        rfind_pred(s, p) == (if k > 0 { Some(k - 1) } else { None::<int> }),
{
    lemma_rfind_pred(s, p);
}

pub open spec fn not_ws() -> spec_fn(char) -> bool {
    |c: char| !is_ws(c)
}

pub open spec fn ws() -> spec_fn(char) -> bool {
    |c: char| is_ws(c)
}

pub open spec fn char_is(x: char) -> spec_fn(char) -> bool {
    |c: char| c == x
}

/// `str::trim_start`.
pub open spec fn trim_start_s(s: Seq<char>) -> Seq<char> {
    match find_pred(s, not_ws()) {
        Some(i) => s.skip(i),
        None => Seq::empty(),
    }
}

/// `str::trim_end`.
pub open spec fn trim_end_s(s: Seq<char>) -> Seq<char> {
    match rfind_pred(s, not_ws()) {
        Some(i) => s.take(i + 1),
        None => Seq::empty(),
    }
}

/// `str::trim`.
pub open spec fn trim_s(s: Seq<char>) -> Seq<char> {
    trim_end_s(trim_start_s(s))
}

/// `str::find` of one character.
pub open spec fn find_c(s: Seq<char>, c: char) -> Option<int> {
    find_pred(s, char_is(c))
}

/// The first index at which the two characters `a`, `b` stand in a row.
pub open spec fn find_pair(s: Seq<char>, a: char, b: char) -> Option<int>
    decreases s.len(),
{
    if s.len() < 2 {
        None
    } else if s[0] == a && s[1] == b {
        Some(0)
    } else {
        match find_pair(s.drop_first(), a, b) {
            Some(i) => Some(i + 1),
            None => None,
        }
    }
}

/// The index at which trimming leading white space from `v[lo..hi]` starts.
pub fn trim_start_at(v: &Vec<char>, lo: usize, hi: usize) -> (r: usize)
    requires
        lo <= hi <= v@.len(),
    ensures
        lo <= r <= hi,
        v@.subrange(r as int, hi as int) == trim_start_s(v@.subrange(lo as int, hi as int)),
{
    let mut i = lo;
    while i < hi && is_whitespace(v[i])
        invariant
            lo <= i <= hi <= v@.len(),
            forall|j: int| lo <= j < i ==> is_ws(#[trigger] v@[j]),
        decreases hi - i,
    {
        i = i + 1;
    }
    proof {
        let s = v@.subrange(lo as int, hi as int);
        assert forall|j: int| 0 <= j < i - lo implies !(#[trigger] not_ws()(s[j])) by {
            assert(s[j] == v@[lo + j]);
        }
        lemma_find_pred_unique(s, not_ws(), i - lo);
        assert(v@.subrange(i as int, hi as int) =~= s.skip(i - lo));
    }
    i
}

/// The index at which trimming trailing white space from `v[lo..hi]` ends.
pub fn trim_end_at(v: &Vec<char>, lo: usize, hi: usize) -> (r: usize)
    requires
        lo <= hi <= v@.len(),
    ensures
        lo <= r <= hi,
        v@.subrange(lo as int, r as int) == trim_end_s(v@.subrange(lo as int, hi as int)),
{
    let mut k = hi;
    while k > lo && is_whitespace(v[k - 1])
        invariant
            lo <= k <= hi <= v@.len(),
            forall|j: int| k <= j < hi ==> is_ws(#[trigger] v@[j]),
        decreases k - lo,
    {
        k = k - 1;
    }
    proof {
        let s = v@.subrange(lo as int, hi as int);
        assert forall|j: int| k - lo <= j < s.len() implies !(#[trigger] not_ws()(s[j])) by {
            assert(s[j] == v@[lo + j]);
        }
        lemma_rfind_pred_unique(s, not_ws(), k - lo);
        assert(v@.subrange(lo as int, k as int) =~= s.take(k - lo));
    }
    k
}

/// `v[lo..hi]` trimmed of white space on both sides, as a range.
pub fn trim_at(v: &Vec<char>, lo: usize, hi: usize) -> (r: (usize, usize))
    requires
        lo <= hi <= v@.len(),
    ensures
        lo <= r.0 <= r.1 <= hi,
        v@.subrange(r.0 as int, r.1 as int) == trim_s(v@.subrange(lo as int, hi as int)),
{
    let a = trim_start_at(v, lo, hi);
    let b = trim_end_at(v, a, hi);
    (a, b)
}

/// The first index in `v[lo..hi]` that holds `c`, counted from `lo`.
pub fn find_char_at(v: &Vec<char>, lo: usize, hi: usize, c: char) -> (r: Option<usize>)
    requires
        lo <= hi <= v@.len(),
    ensures
        match r {
            Some(i) => find_c(v@.subrange(lo as int, hi as int), c) == Some(i as int) && lo + i < hi,
            None => find_c(v@.subrange(lo as int, hi as int), c) is None,
        },
{
    let mut i = lo;
    while i < hi
        invariant
            lo <= i <= hi <= v@.len(),
            forall|j: int| lo <= j < i ==> v@[j] != c,
        decreases hi - i,
    {
        if v[i] == c {
            proof {
                let s = v@.subrange(lo as int, hi as int);
                assert forall|j: int| 0 <= j < i - lo implies !(#[trigger] char_is(c)(s[j])) by {
                    assert(s[j] == v@[lo + j]);
                }
                lemma_find_pred_unique(s, char_is(c), i - lo);
            }
            return Some(i - lo);
        }
        i = i + 1;
    }
    proof {
        let s = v@.subrange(lo as int, hi as int);
        assert forall|j: int| 0 <= j < s.len() implies !(#[trigger] char_is(c)(s[j])) by {
            assert(s[j] == v@[lo + j]);
        }
        lemma_find_pred_unique(s, char_is(c), s.len() as int);
    }
    None
}

/// The first index in `v[lo..hi]` that holds white space, counted from `lo`.
pub fn find_ws_at(v: &Vec<char>, lo: usize, hi: usize) -> (r: Option<usize>)
    requires
        lo <= hi <= v@.len(),
    ensures
        match r {
            Some(i) => find_pred(v@.subrange(lo as int, hi as int), ws()) == Some(i as int) && lo + i < hi,
            None => find_pred(v@.subrange(lo as int, hi as int), ws()) is None,
        },
{
    let mut i = lo;
    while i < hi
        invariant
            lo <= i <= hi <= v@.len(),
            forall|j: int| lo <= j < i ==> !is_ws(#[trigger] v@[j]),
        decreases hi - i,
    {
        if is_whitespace(v[i]) {
            proof {
                let s = v@.subrange(lo as int, hi as int);
                assert forall|j: int| 0 <= j < i - lo implies !(#[trigger] ws()(s[j])) by {
                    assert(s[j] == v@[lo + j]);
                }
                lemma_find_pred_unique(s, ws(), i - lo);
            }
            return Some(i - lo);
        }
        i = i + 1;
    }
    proof {
        let s = v@.subrange(lo as int, hi as int);
        assert forall|j: int| 0 <= j < s.len() implies !(#[trigger] ws()(s[j])) by {
            assert(s[j] == v@[lo + j]);
        }
        lemma_find_pred_unique(s, ws(), s.len() as int);
    }
    None
}

/// The first index in `v[lo..hi]` where `a` and then `b` stand, counted from `lo`.
pub fn find_pair_at(v: &Vec<char>, lo: usize, hi: usize, a: char, b: char) -> (r: Option<usize>)
    requires
        lo <= hi <= v@.len(),
    ensures
        match r {
            Some(i) => find_pair(v@.subrange(lo as int, hi as int), a, b) == Some(i as int) && lo + i + 1 < hi,
            None => find_pair(v@.subrange(lo as int, hi as int), a, b) is None,
        },
    decreases hi - lo,
{
    let ghost s = v@.subrange(lo as int, hi as int);
    if hi - lo < 2 {
        None
    } else if v[lo] == a && v[lo + 1] == b {
        Some(0)
    } else {
        proof {
            assert(s.drop_first() =~= v@.subrange(lo + 1, hi as int));
        }
        match find_pair_at(v, lo + 1, hi, a, b) {
            Some(i) => Some(i + 1),
            None => None,
        }
    }
}

/// Whether `v[lo..hi]` equals the characters of `w`.
pub fn range_eq(v: &Vec<char>, lo: usize, hi: usize, w: &str) -> (r: bool)
    requires
        lo <= hi <= v@.len(),
    ensures
        r == (v@.subrange(lo as int, hi as int) == w@),
{
    let wc = chars_of(w);
    if hi - lo != wc.len() {
        return false;
    }
    let mut i: usize = 0;
    while i < wc.len()
        invariant
            lo <= hi <= v@.len(),
            hi - lo == wc@.len(),
            wc@ == w@,
            i <= wc@.len(),
            forall|j: int| 0 <= j < i ==> v@[lo + j] == wc@[j],
        decreases wc.len() - i,
    {
        if v[lo + i] != wc[i] {
            assert(v@.subrange(lo as int, hi as int)[i as int] != wc@[i as int]);
            return false;
        }
        i = i + 1;
    }
    assert(v@.subrange(lo as int, hi as int) =~= wc@);
    true
}

/// Whether `v[lo..hi]` begins with the characters of `w`.
pub fn range_starts_with(v: &Vec<char>, lo: usize, hi: usize, w: &str) -> (r: bool)
    requires
        lo <= hi <= v@.len(),
    ensures
        r == (w@.len() <= hi - lo && v@.subrange(lo as int, lo + w@.len()) == w@),
{
    let wc = chars_of(w);
    if hi - lo < wc.len() {
        return false;
    }
    range_eq(v, lo, lo + wc.len(), w)
}

/// Whether two strings hold the same characters.
pub fn str_eq(a: &str, b: &str) -> (r: bool)
    ensures
        r == (a@ == b@),
{
    let v = chars_of(a);
    assert(v@.subrange(0, v@.len() as int) =~= v@);
    range_eq(&v, 0, v.len(), b)
}

} // verus!

verus! {

/// Appends `v[lo..hi]` to `s`.
pub fn push_range(s: &mut String, v: &Vec<char>, lo: usize, hi: usize)
    requires
        lo <= hi <= v@.len(),
    ensures
        final(s)@ == old(s)@ + v@.subrange(lo as int, hi as int),
{
    let mut i = lo;
    while i < hi
        invariant
            lo <= i <= hi <= v@.len(),
            s@ == old(s)@ + v@.subrange(lo as int, i as int),
        decreases hi - i,
    {
        s.push(v[i]);
        i = i + 1;
        assert(v@.subrange(lo as int, i as int) =~= v@.subrange(lo as int, i - 1).push(v@[i - 1]));
    }
}

/// Appends the characters of `t` to `s`.
pub fn push_str(s: &mut String, t: &str)
    ensures
        final(s)@ == old(s)@ + t@,
{
    let v = chars_of(t);
    push_range(s, &v, 0, v.len());
    assert(v@.subrange(0, v@.len() as int) =~= v@);
}

/// An owned copy of a string slice.
pub fn owned(t: &str) -> (s: String)
    ensures
        s@ == t@,
{
    let mut s = String::new();
    push_str(&mut s, t);
    assert(s@ =~= t@);
    s
}

/// A copy of a `String`.
pub fn copy_string(t: &String) -> (s: String)
    ensures
        s@ == t@,
{
    owned(t.as_str())
}

pub proof fn lemma_subrange_subrange(s: Seq<char>, a: int, b: int, i: int, j: int)
    requires
        0 <= a <= b <= s.len(),
        0 <= i <= j <= b - a,
    ensures
        s.subrange(a, b).subrange(i, j) == s.subrange(a + i, a + j),
{
    assert(s.subrange(a, b).subrange(i, j) =~= s.subrange(a + i, a + j));
}

pub proof fn lemma_utf8_len_concat(a: Seq<char>, b: Seq<char>)
    ensures
        utf8_len_seq(a + b) == utf8_len_seq(a) + utf8_len_seq(b),
    decreases b.len(),
{
    if b.len() == 0 {
        assert(a + b =~= a);
    } else {
        lemma_utf8_len_concat(a, b.drop_last());
        assert((a + b).drop_last() =~= a + b.drop_last());
    }
}

pub proof fn lemma_utf8_len_nonneg(a: Seq<char>)
    ensures
        utf8_len_seq(a) >= a.len(),
    decreases a.len(),
{
    if a.len() > 0 {
        lemma_utf8_len_nonneg(a.drop_last());
    }
}

pub proof fn lemma_utf8_len_split(s: Seq<char>, k: int)
    requires
        0 <= k <= s.len(),
    ensures
        utf8_len_seq(s) == utf8_len_seq(s.take(k)) + utf8_len_seq(s.skip(k)),
        utf8_len_seq(s.take(k)) >= 0,
        utf8_len_seq(s.skip(k)) >= 0,
{
    assert(s =~= s.take(k) + s.skip(k));
    lemma_utf8_len_concat(s.take(k), s.skip(k));
    lemma_utf8_len_nonneg(s.take(k));
    lemma_utf8_len_nonneg(s.skip(k));
}

/// The number of UTF-8 bytes of `v[lo..hi]`.
pub fn utf8_len_range(v: &Vec<char>, lo: usize, hi: usize) -> (n: u64)
    requires
        lo <= hi <= v@.len(),
        utf8_len_seq(v@.subrange(lo as int, hi as int)) <= u64::MAX,
    ensures
        n as int == utf8_len_seq(v@.subrange(lo as int, hi as int)),
{
    let mut n: u64 = 0;
    let mut i = lo;
    while i < hi
        invariant
            lo <= i <= hi <= v@.len(),
            n as int == utf8_len_seq(v@.subrange(lo as int, i as int)),
            utf8_len_seq(v@.subrange(lo as int, hi as int)) <= u64::MAX,
        decreases hi - i,
    {
        proof {
            let s = v@.subrange(lo as int, hi as int);
            assert(v@.subrange(lo as int, i + 1).drop_last() =~= v@.subrange(lo as int, i as int));
            assert(s.take(i + 1 - lo) =~= v@.subrange(lo as int, i + 1));
            lemma_utf8_len_split(s, i + 1 - lo);
        }
        n = n + utf8_len(v[i]) as u64;
        i = i + 1;
    }
    n
}

} // verus!
