//! Searches over character sequences: first and last occurrences, unmatched
//! brackets, trailing identifiers, positions and byte counts.

use vstd::prelude::*;
use crate::text::{byte_len, is_whitespace_char, is_ws, trim_end, utf8_width};
use crate::ast_util::line_col;

verus! {

/// Index of the last `c` in `s`, or -1.
pub open spec fn last_index_of(s: Seq<char>, c: char) -> int
    decreases s.len(),
{
    if s.len() == 0 {
        -1
    } else if s.last() == c {
        s.len() - 1
    } else {
        last_index_of(s.drop_last(), c)
    }
}

/// Index of the first `c` in `s`, or -1.
pub open spec fn first_index_of(s: Seq<char>, c: char) -> int
    decreases s.len(),
{
    if s.len() == 0 {
        -1
    } else if s[0] == c {
        0
    } else {
        let r = first_index_of(s.drop_first(), c);
        if r < 0 {
            -1
        } else {
            r + 1
        }
    }
}

/// An arrow `->` starts at index `i` of `s`.
pub open spec fn arrow_at(s: Seq<char>, i: int) -> bool {
    0 <= i && i + 1 < s.len() && s[i] == '-' && s[i + 1] == '>'
}

/// Index of the last arrow `->` in `s`, or -1.
pub open spec fn last_arrow(s: Seq<char>) -> int
    decreases s.len(),
{
    if s.len() < 2 {
        -1
    } else if arrow_at(s, s.len() - 2) {
        s.len() - 2
    } else {
        last_arrow(s.drop_last())
    }
}

/// Index of the first arrow `->` in `s`, or -1.
pub open spec fn first_arrow(s: Seq<char>) -> int
    decreases s.len(),
{
    if s.len() < 2 {
        -1
    } else if arrow_at(s, 0) {
        0
    } else {
        let r = first_arrow(s.drop_first());
        if r < 0 {
            -1
        } else {
            r + 1
        }
    }
}

/// Every character of `s` is white space.
pub open spec fn all_ws(s: Seq<char>) -> bool {
    forall|i: int| 0 <= i < s.len() ==> #[trigger] is_ws(s[i])
}

/// Reading `s` backwards with `depth` closers pending, the index of the first
/// `open` that no `close` after it matches, or -1.
pub open spec fn unmatched_open(s: Seq<char>, open: char, close: char, depth: nat) -> int
    decreases s.len(),
{
    if s.len() == 0 {
        -1
    } else if s.last() == close {
        unmatched_open(s.drop_last(), open, close, depth + 1)
    } else if s.last() == open {
        if depth > 0 {
            unmatched_open(s.drop_last(), open, close, (depth - 1) as nat)
        } else {
            s.len() - 1
        }
    } else {
        unmatched_open(s.drop_last(), open, close, depth)
    }
}

/// The unmatched opener found is an index of the text, or -1.
pub proof fn lemma_unmatched_open_bound(s: Seq<char>, open: char, close: char, depth: nat)
    ensures
        -1 <= unmatched_open(s, open, close, depth) < s.len(),
    decreases s.len(),
{
    if s.len() > 0 {
        if s.last() == close {
            lemma_unmatched_open_bound(s.drop_last(), open, close, depth + 1);
        } else if s.last() == open {
            if depth > 0 {
                lemma_unmatched_open_bound(s.drop_last(), open, close, (depth - 1) as nat);
            }
        } else {
            lemma_unmatched_open_bound(s.drop_last(), open, close, depth);
        }
    }
}

/// Whether `char::is_alphanumeric` holds of a character.
pub uninterp spec fn alphanumeric(c: char) -> bool;

/// A character that may end a function name: alphanumeric, `_` or `-`.
pub open spec fn name_char(c: char) -> bool {
    alphanumeric(c) || c == '_' || c == '-'
}

/// The longest end of `s` made of name characters.
pub open spec fn name_suffix(s: Seq<char>) -> Seq<char>
    decreases s.len(),
{
    if s.len() > 0 && name_char(s.last()) {
        name_suffix(s.drop_last()).push(s.last())
    } else {
        Seq::<char>::empty()
    }
}

/// The last occurrence found holds the character, and none comes after it.
pub proof fn lemma_last_index_of(s: Seq<char>, c: char)
    ensures
        -1 <= last_index_of(s, c) < s.len(),
        last_index_of(s, c) >= 0 ==> s[last_index_of(s, c)] == c,
        forall|j: int| last_index_of(s, c) < j < s.len() ==> s[j] != c,
    decreases s.len(),
{
    if s.len() > 0 && s.last() != c {
        lemma_last_index_of(s.drop_last(), c);
        assert forall|j: int| last_index_of(s, c) < j < s.len() implies s[j] != c by {
            if j < s.len() - 1 {
                assert(s.drop_last()[j] == s[j]);
            }
        }
    }
}

/// The first occurrence found holds the character, and none comes before it.
pub proof fn lemma_first_index_of(s: Seq<char>, c: char)
    ensures
        -1 <= first_index_of(s, c) < s.len(),
        first_index_of(s, c) >= 0 ==> s[first_index_of(s, c)] == c,
        forall|j: int| 0 <= j < s.len() && (first_index_of(s, c) < 0 || j < first_index_of(s, c)) ==> s[j] != c,
    decreases s.len(),
{
    if s.len() > 0 && s[0] != c {
        lemma_first_index_of(s.drop_first(), c);
        assert forall|j: int| 0 <= j < s.len() && (first_index_of(s, c) < 0 || j < first_index_of(s, c)) implies s[j] != c by {
            if j > 0 {
                assert(s.drop_first()[j - 1] == s[j]);
            }
        }
    }
}

/// The last arrow found is an arrow, and none starts after it.
pub proof fn lemma_last_arrow(s: Seq<char>)
    ensures
        -1 <= last_arrow(s) < s.len(),
        last_arrow(s) >= 0 ==> arrow_at(s, last_arrow(s)),
        forall|j: int| last_arrow(s) < j < s.len() ==> !arrow_at(s, j),
    decreases s.len(),
{
    if s.len() >= 2 && !arrow_at(s, s.len() - 2) {
        lemma_last_arrow(s.drop_last());
        assert forall|j: int| last_arrow(s) < j < s.len() implies !arrow_at(s, j) by {
            if j < s.len() - 2 {
                assert(arrow_at(s, j) == arrow_at(s.drop_last(), j));
            }
        }
    }
}

/// The first arrow found is an arrow, and none starts before it.
pub proof fn lemma_first_arrow(s: Seq<char>)
    ensures
        -1 <= first_arrow(s) < s.len(),
        first_arrow(s) >= 0 ==> arrow_at(s, first_arrow(s)),
        forall|j: int| 0 <= j < s.len() && (first_arrow(s) < 0 || j < first_arrow(s)) ==> !arrow_at(s, j),
    decreases s.len(),
{
    if s.len() >= 2 && !arrow_at(s, 0) {
        lemma_first_arrow(s.drop_first());
        assert forall|j: int| 0 <= j < s.len() && (first_arrow(s) < 0 || j < first_arrow(s)) implies !arrow_at(s, j) by {
            if j > 0 {
                assert(arrow_at(s, j) == arrow_at(s.drop_first(), j - 1));
            }
        }
    }
}

/// Index of the last `c` in `v`.
pub fn rfind_char(v: &Vec<char>, c: char) -> (r: Option<usize>)
    ensures
        match r {
            Some(i) => i == last_index_of(v@, c) && i < v.len(),
            None => last_index_of(v@, c) < 0,
        },
{
    let mut i = v.len();
    assert(v@.take(i as int) =~= v@);
    while i > 0
        invariant
            i <= v.len(),
            last_index_of(v@, c) == last_index_of(v@.take(i as int), c),
        decreases i,
    {
        assert(v@.take(i as int).drop_last() =~= v@.take(i as int - 1));
        if v[i - 1] == c {
            return Some(i - 1);
        }
        i = i - 1;
    }
    None
}

/// Index of the first `c` in `v`.
pub fn find_char(v: &Vec<char>, c: char) -> (r: Option<usize>)
    ensures
        match r {
            Some(i) => i == first_index_of(v@, c) && i < v.len(),
            None => first_index_of(v@, c) < 0,
        },
{
    let mut i: usize = 0;
    assert(v@.skip(0) =~= v@);
    while i < v.len()
        invariant
            i <= v.len(),
            first_index_of(v@, c) == if first_index_of(v@.skip(i as int), c) < 0 { -1 } else { first_index_of(v@.skip(i as int), c) + i },
        decreases v.len() - i,
    {
        assert(v@.skip(i as int)[0] == v@[i as int]);
        if v[i] == c {
            return Some(i);
        }
        assert(v@.skip(i as int).drop_first() =~= v@.skip(i as int + 1));
        i = i + 1;
    }
    None
}

/// Index of the last arrow `->` in `v`.
pub fn rfind_arrow(v: &Vec<char>) -> (r: Option<usize>)
    ensures
        match r {
            Some(i) => i == last_arrow(v@) && i + 1 < v.len(),
            None => last_arrow(v@) < 0,
        },
{
    let mut i = v.len();
    assert(v@.take(i as int) =~= v@);
    while i >= 2
        invariant
            i <= v.len(),
            last_arrow(v@) == last_arrow(v@.take(i as int)),
        decreases i,
    {
        assert(v@.take(i as int).drop_last() =~= v@.take(i as int - 1));
        if v[i - 2] == '-' && v[i - 1] == '>' {
            return Some(i - 2);
        }
        i = i - 1;
    }
    None
}

/// Index of the first arrow `->` in `v`.
pub fn find_arrow(v: &Vec<char>) -> (r: Option<usize>)
    ensures
        match r {
            Some(i) => i == first_arrow(v@) && i + 1 < v.len(),
            None => first_arrow(v@) < 0,
        },
{
    let mut i: usize = 0;
    assert(v@.skip(0) =~= v@);
    while v.len() - i > 1
        invariant
            i <= v.len(),
            first_arrow(v@) == if first_arrow(v@.skip(i as int)) < 0 { -1 } else { first_arrow(v@.skip(i as int)) + i },
        decreases v.len() - i,
    {
        assert(v@.skip(i as int)[0] == v@[i as int]);
        assert(v@.skip(i as int)[1] == v@[i as int + 1]);
        if v[i] == '-' && v[i + 1] == '>' {
            return Some(i);
        }
        assert(v@.skip(i as int).drop_first() =~= v@.skip(i as int + 1));
        i = i + 1;
    }
    None
}

/// Whether every character of `v` is white space.
pub fn all_whitespace(v: &Vec<char>) -> (r: bool)
    ensures
        r == all_ws(v@),
{
    let mut i: usize = 0;
    while i < v.len()
        invariant
            i <= v.len(),
            forall|j: int| 0 <= j < i ==> #[trigger] is_ws(v@[j]),
        decreases v.len() - i,
    {
        if !is_whitespace_char(v[i]) {
            return false;
        }
        i = i + 1;
    }
    true
}

/// Index of the first `open` that, reading `v` backwards, no `close` matches.
pub fn find_unmatched_open(v: &Vec<char>, open: char, close: char) -> (r: Option<usize>)
    requires
        open != close,
    ensures
        match r {
            Some(i) => i == unmatched_open(v@, open, close, 0) && i < v.len(),
            None => unmatched_open(v@, open, close, 0) < 0,
        },
{
    let mut i = v.len();
    let mut depth: usize = 0;
    assert(v@.take(i as int) =~= v@);
    while i > 0
        invariant
            i <= v.len(),
            depth <= v.len() - i,
            unmatched_open(v@, open, close, 0) == unmatched_open(v@.take(i as int), open, close, depth as nat),
        decreases i,
    {
        assert(v@.take(i as int).drop_last() =~= v@.take(i as int - 1));
        let c = v[i - 1];
        if c == close {
            depth = depth + 1;
        } else if c == open {
            if depth > 0 {
                depth = depth - 1;
            } else {
                return Some(i - 1);
            }
        }
        i = i - 1;
    }
    None
}

/// Whether `char::is_alphanumeric` holds of `c`.
#[verifier::external_body]
fn is_alphanumeric(c: char) -> (r: bool)
    ensures
        r == alphanumeric(c),
{
    c.is_alphanumeric()
}

/// The longest end of `v` made of name characters.
pub fn trailing_name(v: &Vec<char>) -> (r: Vec<char>)
    ensures
        r@ == name_suffix(v@),
{
    let mut i = v.len();
    assert(v@.take(i as int) =~= v@);
    assert(v@.subrange(i as int, v.len() as int) =~= Seq::<char>::empty());
    while i > 0 && (is_alphanumeric(v[i - 1]) || v[i - 1] == '_' || v[i - 1] == '-')
        invariant
            i <= v.len(),
            name_suffix(v@) == name_suffix(v@.take(i as int)) + v@.subrange(i as int, v.len() as int),
        decreases i,
    {
        assert(v@.take(i as int).drop_last() =~= v@.take(i as int - 1));
        assert(v@.subrange(i as int - 1, v.len() as int) =~= seq![v@[i as int - 1]] + v@.subrange(i as int, v.len() as int));
        assert(name_suffix(v@.take(i as int - 1)).push(v@[i as int - 1]) + v@.subrange(i as int, v.len() as int)
            =~= name_suffix(v@.take(i as int - 1)) + v@.subrange(i as int - 1, v.len() as int));
        i = i - 1;
    }
    if i > 0 {
        assert(v@.take(i as int).last() == v@[i as int - 1]);
    }
    assert(name_suffix(v@.take(i as int)) =~= Seq::<char>::empty());
    sub_chars(v, i, v.len())
}

/// The characters of `v` from index `a` up to `b`.
pub fn sub_chars(v: &Vec<char>, a: usize, b: usize) -> (r: Vec<char>)
    requires
        a <= b <= v.len(),
    ensures
        r@ == v@.subrange(a as int, b as int),
{
    let mut r: Vec<char> = Vec::new();
    let mut i = a;
    while i < b
        invariant
            a <= i <= b <= v.len(),
            r@ == v@.subrange(a as int, i as int),
        decreases b - i,
    {
        r.push(v[i]);
        i = i + 1;
        assert(r@ =~= v@.subrange(a as int, i as int));
    }
    r
}

proof fn lemma_trim_end_take(s: Seq<char>)
    ensures
        exists|m: int| 0 <= m <= s.len() && trim_end(s) == s.take(m),
    decreases s.len(),
{
    if s.len() > 0 && is_ws(s.last()) {
        lemma_trim_end_take(s.drop_last());
        let m = choose|m: int| 0 <= m <= s.drop_last().len() && trim_end(s.drop_last()) == s.drop_last().take(m);
        assert(s.drop_last().take(m) =~= s.take(m));
    } else {
        assert(s.take(s.len() as int) =~= s);
    }
}

/// Trimming the end keeps a prefix.
pub proof fn lemma_trim_end_prefix(s: Seq<char>)
    ensures
        trim_end(s).len() <= s.len(),
        trim_end(s) == s.take(trim_end(s).len() as int),
    decreases s.len(),
{
    if s.len() > 0 && is_ws(s.last()) {
        lemma_trim_end_prefix(s.drop_last());
        assert(s.drop_last().take(trim_end(s).len() as int) =~= s.take(trim_end(s).len() as int));
    } else {
        assert(s.take(s.len() as int) =~= s);
    }
}

/// `v` without its trailing white space.
pub fn trim_end_chars(v: &Vec<char>) -> (r: Vec<char>)
    ensures
        r@ == trim_end(v@),
{
    let mut i = v.len();
    assert(v@.take(i as int) =~= v@);
    while i > 0 && is_whitespace_char(v[i - 1])
        invariant
            i <= v.len(),
            trim_end(v@) == trim_end(v@.take(i as int)),
        decreases i,
    {
        assert(v@.take(i as int).drop_last() =~= v@.take(i as int - 1));
        i = i - 1;
    }
    if i > 0 {
        assert(v@.take(i as int).last() == v@[i as int - 1]);
    }
    sub_chars(v, 0, i)
}

/// Line and column reached after reading `v`.
pub fn line_col_of(v: &Vec<char>, n: usize) -> (r: (usize, usize))
    requires
        n <= v.len(),
        v.len() < usize::MAX,
    ensures
        r.0 == line_col(v@.take(n as int)).0,
        r.1 == line_col(v@.take(n as int)).1,
        1 <= r.0 <= n + 1,
        1 <= r.1 <= n + 1,
{
    let mut line: usize = 1;
    let mut col: usize = 1;
    let mut k: usize = 0;
    while k < n
        invariant
            k <= n <= v.len() < usize::MAX,
            line == line_col(v@.take(k as int)).0,
            col == line_col(v@.take(k as int)).1,
            1 <= line <= k + 1,
            1 <= col <= k + 1,
        decreases n - k,
    {
        assert(v@.take(k as int + 1).drop_last() =~= v@.take(k as int));
        if v[k] == '\n' {
            line = line + 1;
            col = 1;
        } else {
            col = col + 1;
        }
        k = k + 1;
    }
    (line, col)
}

/// A text takes at least one and at most four bytes per character.
pub proof fn lemma_byte_len_bounds(s: Seq<char>)
    ensures
        s.len() <= byte_len(s) <= 4 * s.len(),
    decreases s.len(),
{
    if s.len() > 0 {
        lemma_byte_len_bounds(s.drop_last());
    }
}

/// The bytes of two texts joined are the bytes of each.
pub proof fn lemma_byte_len_concat(a: Seq<char>, b: Seq<char>)
    ensures
        byte_len(a + b) == byte_len(a) + byte_len(b),
    decreases b.len(),
{
    if b.len() == 0 {
        assert(a + b =~= a);
    } else {
        assert((a + b).drop_last() =~= a + b.drop_last());
        lemma_byte_len_concat(a, b.drop_last());
    }
}

/// The bytes before and after a character index add up to the whole.
pub proof fn lemma_byte_len_split(s: Seq<char>, i: int)
    requires
        0 <= i <= s.len(),
    ensures
        byte_len(s.take(i)) + byte_len(s.skip(i)) == byte_len(s),
{
    assert(s =~= s.take(i) + s.skip(i));
    lemma_byte_len_concat(s.take(i), s.skip(i));
}

/// A longer start of a text takes at least as many bytes.
pub proof fn lemma_byte_len_take_mono(s: Seq<char>, a: int, b: int)
    requires
        0 <= a <= b <= s.len(),
    ensures
        byte_len(s.take(a)) <= byte_len(s.take(b)),
    decreases b - a,
{
    if a < b {
        assert(s.take(b).drop_last() =~= s.take(b - 1));
        lemma_byte_len_take_mono(s, a, b - 1);
    }
}

/// Number of UTF-8 bytes of the first `n` characters of `v`.
pub fn byte_count(v: &Vec<char>, n: usize) -> (r: usize)
    requires
        n <= v.len(),
        byte_len(v@) <= usize::MAX,
    ensures
        r == byte_len(v@.take(n as int)),
{
    let mut total: usize = 0;
    let mut k: usize = 0;
    while k < n
        invariant
            k <= n <= v.len(),
            byte_len(v@) <= usize::MAX,
            total == byte_len(v@.take(k as int)),
        decreases n - k,
    {
        assert(v@.take(k as int + 1).drop_last() =~= v@.take(k as int));
        proof {
            lemma_byte_len_take_mono(v@, k as int + 1, v.len() as int);
            assert(v@.take(v.len() as int) =~= v@);
        }
        total = total + utf8_width(v[k]);
        k = k + 1;
    }
    total
}

} // verus!
