//! Character-level helpers shared by the tag-file and manifest grammars.

use vstd::prelude::*;
use vstd::string::StrSliceExecFns;
use vstd::utf8::{encode_utf8, encode_utf8_decode_utf8};

verus! {

pub const CR: char = '\r';

pub const LF: char = '\n';

/// True for the two characters that may separate a label from its value.
pub open spec fn space_or_tab(c: char) -> bool {
    c == ' ' || c == '\t'
}

/// True for the characters that end a line.
pub open spec fn line_break(c: char) -> bool {
    c == CR || c == LF
}

/// The code point of `c` with the ASCII upper-case letters mapped to lower case.
pub open spec fn ascii_fold(c: char) -> u32 {
    if 'A' as u32 <= c as u32 && c as u32 <= 'Z' as u32 {
        (c as u32 + 32) as u32
    } else {
        c as u32
    }
}

/// Equality of two texts up to the case of ASCII letters.
pub open spec fn eq_ignore_ascii_case(a: Seq<char>, b: Seq<char>) -> bool {
    &&& a.len() == b.len()
    &&& forall|i: int| 0 <= i < a.len() ==> ascii_fold(#[trigger] a[i]) == ascii_fold(b[i])
}

/// True when some character of `s` ends a line.
pub open spec fn has_line_break(s: Seq<char>) -> bool {
    exists|i: int| 0 <= i < s.len() && line_break(#[trigger] s[i])
}

pub fn is_space_or_tab(c: char) -> (b: bool)
    ensures
        b == space_or_tab(c),
{
    c == ' ' || c == '\t'
}

pub fn is_line_break(c: char) -> (b: bool)
    ensures
        b == line_break(c),
{
    c == CR || c == LF
}

pub fn fold_char(c: char) -> (n: u32)
    ensures
        n == ascii_fold(c),
{
    let n: u32 = c as u32;
    if 65 <= n && n <= 90 {
        n + 32
    } else {
        n
    }
}

/// The characters of `s`, one element per Unicode scalar value.
pub fn to_chars(s: &str) -> (v: Vec<char>)
    ensures
        v@ == s@,
{
    let mut v: Vec<char> = Vec::new();
    for c in it: s.chars()
        invariant
            it.seq() == s@,
            v@ == s@.take(it.index() as int),
    {
        proof {
            let i = it.index() as int;
            assert(s@.take(i + 1) =~= s@.take(i).push(s@[i]));
        }
        v.push(c);
    }
    proof {
        assert(s@.take(s@.len() as int) =~= s@);
    }
    v
}

/// Compares `a` with the characters `b`, ignoring the case of ASCII letters.
pub fn matches_ignore_case(a: &str, b: &Vec<char>) -> (r: bool)
    ensures
        r == eq_ignore_ascii_case(a@, b@),
{
    let mut i: usize = 0;
    for c in it: a.chars()
        invariant
            it.seq() == a@,
            i == it.index(),
            i <= b@.len(),
            forall|j: int| 0 <= j < i ==> ascii_fold(#[trigger] a@[j]) == ascii_fold(b@[j]),
    {
        if i >= b.len() {
            return false;
        }
        if fold_char(c) != fold_char(b[i]) {
            return false;
        }
        i = i + 1;
    }
    i == b.len()
}

/// True when `s` begins with a space or a tab.
pub open spec fn leading_space_or_tab(s: Seq<char>) -> bool {
    s.len() > 0 && space_or_tab(s.first())
}

/// True when `s` ends with a space or a tab.
pub open spec fn trailing_space_or_tab(s: Seq<char>) -> bool {
    s.len() > 0 && space_or_tab(s.last())
}

/// True when `i` is the position of the first `c` in `s`.
pub open spec fn is_first_index_of(s: Seq<char>, c: char, i: int) -> bool {
    &&& 0 <= i < s.len()
    &&& s[i] == c
    &&& forall|j: int| 0 <= j < i ==> s[j] != c
}

/// The position of the first `c` in `s`; meaningful when `s` contains `c`.
pub open spec fn first_index_of(s: Seq<char>, c: char) -> int {
    choose|i: int| is_first_index_of(s, c, i)
}

/// A position that satisfies `is_first_index_of` is the one `first_index_of` names.
pub proof fn lemma_first_index_of(s: Seq<char>, c: char, i: int)
    requires
        is_first_index_of(s, c, i),
    ensures
        first_index_of(s, c) == i,
        s.contains(c),
{
    let k = first_index_of(s, c);
    assert(is_first_index_of(s, c, k));
    if k < i {
        assert(s[k] != c);
    }
    if i < k {
        assert(s[i] != c);
    }
}

pub fn starts_with_space_or_tab(s: &str) -> (b: bool)
    ensures
        b == leading_space_or_tab(s@),
{
    for c in it: s.chars()
        invariant
            it.seq() == s@,
            it.index() == 0,
    {
        return is_space_or_tab(c);
    }
    false
}

pub fn ends_with_space_or_tab(s: &str) -> (b: bool)
    ensures
        b == trailing_space_or_tab(s@),
{
    let mut last = false;
    for c in it: s.chars()
        invariant
            it.seq() == s@,
            last == (it.index() > 0 && space_or_tab(s@[it.index() - 1])),
    {
        last = is_space_or_tab(c);
    }
    last
}

pub fn contains_line_break(s: &str) -> (b: bool)
    ensures
        b == has_line_break(s@),
{
    for c in it: s.chars()
        invariant
            it.seq() == s@,
            forall|j: int| 0 <= j < it.index() ==> !line_break(#[trigger] s@[j]),
    {
        if is_line_break(c) {
            return true;
        }
    }
    false
}

/// The position, counted in characters, of the first `needle` in `s`.
pub fn find_char(s: &str, needle: char) -> (r: Option<usize>)
    ensures
        match r {
            Some(i) => is_first_index_of(s@, needle, i as int),
            None => !s@.contains(needle),
        },
{
    let n = s.unicode_len();
    let mut i: usize = 0;
    for c in it: s.chars()
        invariant
            it.seq() == s@,
            n == s@.len(),
            i == it.index(),
            forall|j: int| 0 <= j < i ==> s@[j] != needle,
    {
        if c == needle {
            return Some(i);
        }
        i = i + 1;
    }
    None
}

/// What stands before and after the first `c` of `s`, if `s` holds one.
pub open spec fn split_at_first(s: Seq<char>, c: char) -> Option<(Seq<char>, Seq<char>)> {
    if s.contains(c) {
        let at = first_index_of(s, c);
        Some((s.take(at), s.skip(at + 1)))
    } else {
        None
    }
}

/// Splits `s` at its first `delimiter`, which belongs to neither part.
pub fn split_once(s: &str, delimiter: char) -> (r: Option<(&str, &str)>)
    ensures
        match r {
            Some((before, after)) => split_at_first(s@, delimiter) == Some((before@, after@)),
            None => split_at_first(s@, delimiter) is None,
        },
{
    match find_char(s, delimiter) {
        Some(at) => {
            proof {
                lemma_first_index_of(s@, delimiter, at as int);
            }
            let len = s.unicode_len();
            let before = s.substring_char(0, at);
            let after = s.substring_char(at + 1, len);
            assert(before@ == s@.take(at as int));
            assert(after@ == s@.skip(at + 1));
            Some((before, after))
        },
        None => None,
    }
}

/// Two texts joined by a `c` that the first does not hold split back into the two.
pub proof fn lemma_split_joined(before: Seq<char>, c: char, after: Seq<char>)
    requires
        !before.contains(c),
    ensures
        split_at_first(before.push(c) + after, c) == Some((before, after)),
{
    let joined = before.push(c) + after;
    let at = before.len() as int;
    assert(joined[at] == c);
    assert forall|j: int| 0 <= j < at implies joined[j] != c by {
        assert(joined[j] == before[j]);
        assert(before.contains(joined[j]));
    }
    lemma_first_index_of(joined, c, at);
    assert(joined.take(at) =~= before);
    assert(joined.skip(at + 1) =~= after);
}

/// The text of `s` without its first character; an empty text stays as it is.
pub fn skip_first(s: &str) -> (r: &str)
    ensures
        r@ == if s@.len() > 0 {
            s@.skip(1)
        } else {
            s@
        },
{
    let len = s.unicode_len();
    if len == 0 {
        return s;
    }
    let r = s.substring_char(1, len);
    assert(r@ == s@.skip(1));
    r
}

/// Tells whether two texts are the same.
pub fn same_text(a: &str, b: &str) -> (r: bool)
    ensures
        r == (a@ == b@),
{
    let x = a.as_bytes();
    let y = b.as_bytes();
    proof {
        // Two texts are the same when their bytes in UTF-8 are.
        encode_utf8_decode_utf8(a@);
        encode_utf8_decode_utf8(b@);
    }
    if x.len() != y.len() {
        return false;
    }
    let mut i: usize = 0;
    while i < x.len()
        invariant
            i <= x.len(),
            x.len() == y.len(),
            x@ == encode_utf8(a@),
            y@ == encode_utf8(b@),
            forall|j: int| 0 <= j < i ==> x@[j] == y@[j],
        decreases x.len() - i,
    {
        if x[i] != y[i] {
            return false;
        }
        i = i + 1;
    }
    assert(x@ =~= y@);
    true
}

} // verus!
