//! Text helpers: characters of strings, UTF-8 byte widths, decimal numbers,
//! padding and line splitting, each with its mathematical meaning.

use vstd::prelude::*;

verus! {

/// Number of bytes that the UTF-8 encoding of `c` takes.
pub open spec fn char_width(c: char) -> nat {
    if (c as u32) < 0x80 {
        1
    } else if (c as u32) < 0x800 {
        2
    } else if (c as u32) < 0x10000 {
        3
    } else {
        4
    }
}

/// Number of bytes of the UTF-8 encoding of a character sequence.
pub open spec fn byte_len(cs: Seq<char>) -> nat
    decreases cs.len(),
{
    if cs.len() == 0 {
        0
    } else {
        byte_len(cs.drop_last()) + char_width(cs.last())
    }
}

/// Width in bytes of a character, computed.
pub fn utf8_width(c: char) -> (w: usize)
    ensures
        w == char_width(c),
        1 <= w <= 4,
{
    let u = c as u32;
    if u < 0x80 {
        1
    } else if u < 0x800 {
        2
    } else if u < 0x10000 {
        3
    } else {
        4
    }
}

/// The characters of a string slice, in order.
pub fn chars_of(s: &str) -> (v: Vec<char>)
    ensures
        v@ == s@,
{
    let mut v: Vec<char> = Vec::new();
    for c in it: s.chars()
        invariant
            v@ == it.seq().take(it.index() as int),
    {
        v.push(c);
    }
    v
}

} // verus!

verus! {

/// Appends one character to a string (`String::push`).
#[verifier::external_body]
pub(crate) fn push_char(s: &mut String, c: char)
    ensures
        final(s)@ == old(s)@.push(c),
{
    s.push(c);
}

/// A string holding the given characters.
pub fn string_from(cs: &Vec<char>) -> (s: String)
    ensures
        s@ == cs@,
{
    let mut s = String::new();
    let mut i: usize = 0;
    while i < cs.len()
        invariant
            i <= cs.len(),
            s@ == cs@.take(i as int),
        decreases cs.len() - i,
    {
        push_char(&mut s, cs[i]);
        i = i + 1;
        assert(s@ =~= cs@.take(i as int));
    }
    assert(cs@.take(cs.len() as int) =~= cs@);
    s
}

/// Appends the characters of `cs` to `s`.
pub fn push_chars(s: &mut String, cs: &Vec<char>)
    ensures
        final(s)@ == old(s)@ + cs@,
{
    let ghost start = s@;
    let mut i: usize = 0;
    while i < cs.len()
        invariant
            i <= cs.len(),
            s@ == start + cs@.take(i as int),
        decreases cs.len() - i,
    {
        push_char(s, cs[i]);
        i = i + 1;
        assert(s@ =~= start + cs@.take(i as int));
    }
    assert(cs@.take(cs.len() as int) =~= cs@);
}

/// The decimal digit character for `d < 10`.
pub open spec fn digit_char(d: nat) -> char {
    ((d + 48) as u32) as char
}

/// The decimal notation of a natural number, as `to_string` writes it.
pub open spec fn decimal(n: nat) -> Seq<char>
    decreases n,
{
    if n < 10 {
        seq![digit_char(n)]
    } else {
        decimal(n / 10).push(digit_char(n % 10))
    }
}

/// A run of `k` copies of `c`.
pub open spec fn repeat(c: char, k: nat) -> Seq<char> {
    Seq::new(k, |_i: int| c)
}

/// `s` right-aligned in a field of `w` characters, as `{:>w$}` formats it.
pub open spec fn pad_left(s: Seq<char>, w: nat) -> Seq<char> {
    if s.len() < w {
        repeat(' ', (w - s.len()) as nat) + s
    } else {
        s
    }
}

proof fn lemma_decimal_nonempty(n: nat)
    ensures
        decimal(n).len() >= 1,
    decreases n,
{
    if n >= 10 {
        lemma_decimal_nonempty(n / 10);
    }
}

/// Decimal notation of a number.
pub fn decimal_string(n: u128) -> (s: String)
    ensures
        s@ == decimal(n as nat),
    decreases n,
{
    if n < 10 {
        let d: u8 = n as u8;
        let c: char = (48u8 + d) as char;
        let mut s = String::new();
        push_char(&mut s, c);
        assert(c == digit_char(n as nat));
        assert(s@ =~= decimal(n as nat));
        s
    } else {
        let mut s = decimal_string(n / 10);
        let d: u8 = (n % 10) as u8;
        let c: char = (48u8 + d) as char;
        push_char(&mut s, c);
        assert(c == digit_char((n % 10) as nat));
        s
    }
}

pub open spec fn pow10(k: nat) -> nat
    decreases k,
{
    if k == 0 {
        1
    } else {
        10 * pow10((k - 1) as nat)
    }
}

proof fn lemma_decimal_len_pow(n: nat, k: nat)
    requires
        k >= 1,
        n < pow10(k),
    ensures
        decimal(n).len() <= k,
    decreases k,
{
    if n >= 10 {
        assert(k >= 2) by {
            if k == 1 {
                assert(pow10(1) == 10) by {
                    assert(pow10(0) == 1);
                }
            }
        }
        let p = pow10((k - 1) as nat);
        assert(n / 10 < p) by (nonlinear_arith)
            requires
                n < 10 * p,
        ;
        lemma_decimal_len_pow(n / 10, (k - 1) as nat);
    }
}

/// A number below 2^128 has at most 39 decimal digits.
pub proof fn lemma_decimal_len_u128(n: u128)
    ensures
        decimal(n as nat).len() <= 39,
{
    reveal_with_fuel(pow10, 40);
    assert(pow10(39) == 1000000000000000000000000000000000000000nat);
    lemma_decimal_len_pow(n as nat, 39);
}

/// Number of decimal digits of `n`.
pub fn decimal_width(n: u128) -> (w: usize)
    ensures
        w == decimal(n as nat).len(),
        1 <= w <= 39,
    decreases n,
{
    proof {
        lemma_decimal_nonempty(n as nat);
        lemma_decimal_len_u128(n);
    }
    if n < 10 {
        1
    } else {
        let r = decimal_width(n / 10);
        proof {
            lemma_decimal_len_bound((n / 10) as nat);
        }
        r + 1
    }
}

proof fn lemma_decimal_len_bound(n: nat)
    ensures
        decimal(n).len() <= n + 1,
    decreases n,
{
    if n >= 10 {
        lemma_decimal_len_bound(n / 10);
    }
}

/// Appends `k` copies of `c`.
pub fn push_repeat(s: &mut String, c: char, k: usize)
    ensures
        final(s)@ == old(s)@ + repeat(c, k as nat),
{
    let ghost start = s@;
    let mut i: usize = 0;
    while i < k
        invariant
            i <= k,
            s@ == start + repeat(c, i as nat),
        decreases k - i,
    {
        push_char(s, c);
        i = i + 1;
        assert(s@ =~= start + repeat(c, i as nat));
    }
}

/// Appends the decimal notation of `n`, right-aligned to width `w`.
pub fn push_padded_number(s: &mut String, n: usize, w: usize)
    ensures
        final(s)@ == old(s)@ + pad_left(decimal(n as nat), w as nat),
{
    let ghost start = s@;
    let digits = decimal_string(n as u128);
    let len = decimal_width(n as u128);
    if len < w {
        push_repeat(s, ' ', w - len);
    }
    s.append(digits.as_str());
    assert(s@ =~= start + pad_left(decimal(n as nat), w as nat));
}

} // verus!

verus! {

/// The pieces of `cs` between newline characters (one more piece than newlines).
pub open spec fn split_nl(cs: Seq<char>) -> Seq<Seq<char>>
    decreases cs.len(),
{
    if cs.len() == 0 {
        seq![Seq::<char>::empty()]
    } else {
        let p = split_nl(cs.drop_last());
        if cs.last() == '\n' {
            p.push(Seq::<char>::empty())
        } else {
            p.update(p.len() - 1, p.last().push(cs.last()))
        }
    }
}

/// `cs` without one trailing carriage return.
pub open spec fn strip_cr(cs: Seq<char>) -> Seq<char> {
    if cs.len() > 0 && cs.last() == '\r' {
        cs.drop_last()
    } else {
        cs
    }
}

/// The lines of a text as `str::lines` yields them: pieces ended by a newline
/// lose a carriage return before it, and an empty piece after the last newline
/// is not a line.
pub open spec fn text_lines(cs: Seq<char>) -> Seq<Seq<char>> {
    let p = split_nl(cs);
    let body = p.drop_last().map_values(|x: Seq<char>| strip_cr(x));
    if p.last().len() == 0 {
        body
    } else {
        body.push(p.last())
    }
}

/// Line `n` (counting from 0) of a text, or nothing when there is no such line.
pub open spec fn nth_line(cs: Seq<char>, n: int) -> Seq<char> {
    if 0 <= n < text_lines(cs).len() {
        text_lines(cs)[n]
    } else {
        Seq::<char>::empty()
    }
}

/// Splitting at newlines gives at least one piece.
pub proof fn lemma_split_nl_nonempty(cs: Seq<char>)
    ensures
        split_nl(cs).len() >= 1,
    decreases cs.len(),
{
    if cs.len() > 0 {
        lemma_split_nl_nonempty(cs.drop_last());
    }
}

/// `cs` without one trailing carriage return.
pub fn strip_cr_vec(cs: &mut Vec<char>)
    ensures
        final(cs)@ == strip_cr(old(cs)@),
{
    let n = cs.len();
    if n > 0 && cs[n - 1] == '\r' {
        cs.pop();
    }
}

/// The lines of a text.
pub fn lines_of(cs: &Vec<char>) -> (r: Vec<Vec<char>>)
    ensures
        r.deep_view() == text_lines(cs@),
{
    let mut done: Vec<Vec<char>> = Vec::new();
    let mut cur: Vec<char> = Vec::new();
    let mut i: usize = 0;
    assert(cs@.take(0) =~= Seq::<char>::empty());
    assert(done.deep_view() =~= split_nl(cs@.take(0)).drop_last().map_values(|x: Seq<char>| strip_cr(x)));
    while i < cs.len()
        invariant
            i <= cs.len(),
            done.deep_view() == split_nl(cs@.take(i as int)).drop_last().map_values(|x: Seq<char>| strip_cr(x)),
            cur@ == split_nl(cs@.take(i as int)).last(),
        decreases cs.len() - i,
    {
        let c = cs[i];
        let ghost t = cs@.take(i as int);
        let ghost t1 = cs@.take(i as int + 1);
        proof {
            assert(t1.drop_last() =~= t);
            assert(t1.last() == c);
            lemma_split_nl_nonempty(t);
        }
        let ghost pd = done.deep_view();
        if c == '\n' {
            let mut line = cur;
            strip_cr_vec(&mut line);
            let ghost lv = line@;
            let ghost dv = done@;
            done.push(line);
            cur = Vec::new();
            proof {
                let p = split_nl(t);
                assert(split_nl(t1) == p.push(Seq::<char>::empty()));
                assert(split_nl(t1).drop_last() =~= p);
                assert(p =~= p.drop_last().push(p.last()));
                assert(done.deep_view() =~= pd.push(lv)) by {
                    assert forall|k: int| 0 <= k < done.len() implies done.deep_view()[k] == pd.push(lv)[k] by {
                        if k < dv.len() {
                            assert(done@[k] == dv[k]);
                        }
                    }
                }
                assert(p.map_values(|x: Seq<char>| strip_cr(x)) =~= p.drop_last().map_values(|x: Seq<char>| strip_cr(x)).push(strip_cr(p.last())));
                assert(cur@ =~= split_nl(t1).last());
            }
        } else {
            cur.push(c);
            proof {
                let p = split_nl(t);
                assert(split_nl(t1) == p.update(p.len() - 1, p.last().push(c)));
                assert(split_nl(t1).drop_last() =~= p.drop_last());
            }
        }
        i = i + 1;
    }
    assert(cs@.take(cs.len() as int) =~= cs@);
    proof {
        lemma_split_nl_nonempty(cs@);
    }
    if cur.len() > 0 {
        let ghost pd = done.deep_view();
        let ghost dv = done@;
        let ghost cv = cur@;
        done.push(cur);
        assert forall|k: int| 0 <= k < done.len() implies done.deep_view()[k] == pd.push(cv)[k] by {
            if k < dv.len() {
                assert(done@[k] == dv[k]);
            }
        }
        assert(done.deep_view() =~= pd.push(cv));
    }
    done
}

/// Line `n` (from 0) of the text, or an empty line when there is none.
pub fn line_at(cs: &Vec<char>, n: usize) -> (r: Vec<char>)
    ensures
        r@ == nth_line(cs@, n as int),
{
    let lines = lines_of(cs);
    if n < lines.len() {
        let src = &lines[n];
        assert(src@ == text_lines(cs@)[n as int]);
        let mut r: Vec<char> = Vec::new();
        let mut k: usize = 0;
        while k < src.len()
            invariant
                k <= src.len(),
                r@ == src@.take(k as int),
            decreases src.len() - k,
        {
            r.push(src[k]);
            k = k + 1;
            assert(r@ =~= src@.take(k as int));
        }
        assert(src@.take(src.len() as int) =~= src@);
        r
    } else {
        Vec::new()
    }
}

/// Tabs kept, every other character replaced by a space: the blank under a
/// stretch of source text that keeps carets aligned.
pub open spec fn blanks(cs: Seq<char>) -> Seq<char> {
    cs.map_values(|c: char| if c == '\t' { '\t' } else { ' ' })
}

/// The blank under the first `k` characters of `cs` (all of it when shorter).
pub open spec fn blank_prefix(cs: Seq<char>, k: int) -> Seq<char> {
    if k < cs.len() {
        blanks(cs.take(k))
    } else {
        blanks(cs)
    }
}

/// Appends the blank under the first `k` characters of `cs`.
pub fn push_blank_prefix(s: &mut String, cs: &Vec<char>, k: usize)
    ensures
        final(s)@ == old(s)@ + blank_prefix(cs@, k as int),
{
    let ghost start = s@;
    let n = if k < cs.len() { k } else { cs.len() };
    let mut i: usize = 0;
    while i < n
        invariant
            n <= cs.len(),
            n == if k < cs.len() { k as int } else { cs.len() as int },
            i <= n,
            s@ == start + blanks(cs@.take(i as int)),
        decreases n - i,
    {
        let c = cs[i];
        if c == '\t' {
            push_char(s, '\t');
        } else {
            push_char(s, ' ');
        }
        i = i + 1;
        assert(blanks(cs@.take(i as int)) =~= blanks(cs@.take(i as int - 1)).push(if c == '\t' { '\t' } else { ' ' }));
    }
    assert(cs@.take(cs.len() as int) =~= cs@);
}

/// The texts of `list` with `sep` between neighbours.
pub open spec fn join(list: Seq<Seq<char>>, sep: Seq<char>) -> Seq<char>
    decreases list.len(),
{
    if list.len() == 0 {
        Seq::<char>::empty()
    } else if list.len() == 1 {
        list[0]
    } else {
        join(list.drop_last(), sep) + sep + list.last()
    }
}

/// Appends the strings of `list` joined by `sep`.
pub fn push_joined(s: &mut String, list: &Vec<String>, sep: &str)
    ensures
        final(s)@ == old(s)@ + join(list.deep_view(), sep@),
{
    let ghost start = s@;
    let mut i: usize = 0;
    while i < list.len()
        invariant
            i <= list.len(),
            s@ == start + join(list.deep_view().take(i as int), sep@),
        decreases list.len() - i,
    {
        proof {
            assert(list.deep_view().take(i as int + 1).drop_last() =~= list.deep_view().take(i as int));
            assert(list.deep_view()[i as int] == list@[i as int]@);
        }
        if i > 0 {
            s.append(sep);
        }
        s.append(list[i].as_str());
        proof {
            if i == 0 {
                assert(list.deep_view().take(1) =~= seq![list@[0]@]);
            }
        }
        i = i + 1;
        assert(s@ =~= start + join(list.deep_view().take(i as int), sep@));
    }
    assert(list.deep_view().take(list.len() as int) =~= list.deep_view());
}

} // verus!

verus! {

/// The pieces between newlines, and the newlines, fit in the text.
pub proof fn lemma_split_nl_measure(cs: Seq<char>)
    ensures
        split_nl(cs).len() >= 1,
        split_nl(cs).len() - 1 + split_nl(cs).last().len() <= cs.len(),
    decreases cs.len(),
{
    if cs.len() > 0 {
        lemma_split_nl_measure(cs.drop_last());
    }
}

/// A text has no more lines than characters.
pub proof fn lemma_text_lines_len(cs: Seq<char>)
    ensures
        text_lines(cs).len() <= cs.len(),
{
    lemma_split_nl_measure(cs);
}

/// The opening line of a snippet: `w` blanks, an arrow and the location.
pub open spec fn arrow_line(w: nat, loc: Seq<char>) -> Seq<char> {
    repeat(' ', w) + "--> "@ + loc + "\n"@
}

/// A gutter line of `w + 1` blanks and a bar.
pub open spec fn bar_line(w: nat) -> Seq<char> {
    repeat(' ', w + 1) + "|\n"@
}

/// A quoted source line with its number right-aligned to width `w`.
pub open spec fn source_line(n: nat, w: nat, text: Seq<char>) -> Seq<char> {
    pad_left(decimal(n), w) + " | "@ + text + "\n"@
}

/// Consecutive source lines numbered from `first`.
pub open spec fn numbered_lines(lines: Seq<Seq<char>>, first: nat, w: nat) -> Seq<char>
    decreases lines.len(),
{
    if lines.len() == 0 {
        Seq::<char>::empty()
    } else {
        numbered_lines(lines.drop_last(), first, w) + source_line((first + lines.len() - 1) as nat, w, lines.last())
    }
}

/// Appends the opening line of a snippet.
pub fn push_arrow_line(s: &mut String, w: usize, loc: &str)
    ensures
        final(s)@ == old(s)@ + arrow_line(w as nat, loc@),
{
    let ghost start = s@;
    push_repeat(s, ' ', w);
    s.append("--> ");
    s.append(loc);
    s.append("\n");
    assert(s@ =~= start + arrow_line(w as nat, loc@));
}

/// Appends a gutter line.
pub fn push_bar_line(s: &mut String, w: usize)
    requires
        w < usize::MAX,
    ensures
        final(s)@ == old(s)@ + bar_line(w as nat),
{
    let ghost start = s@;
    push_repeat(s, ' ', w + 1);
    s.append("|\n");
    assert(s@ =~= start + bar_line(w as nat));
}

/// Appends a quoted source line with its number.
pub fn push_source_line(s: &mut String, n: usize, w: usize, text: &Vec<char>)
    ensures
        final(s)@ == old(s)@ + source_line(n as nat, w as nat, text@),
{
    let ghost start = s@;
    push_padded_number(s, n, w);
    s.append(" | ");
    push_chars(s, text);
    s.append("\n");
    assert(s@ =~= start + source_line(n as nat, w as nat, text@));
}

/// Appends the lines of `lines`, numbered from `first`.
pub fn push_numbered_lines(s: &mut String, lines: &Vec<Vec<char>>, first: usize, w: usize)
    requires
        first + lines.len() <= usize::MAX,
    ensures
        final(s)@ == old(s)@ + numbered_lines(lines.deep_view(), first as nat, w as nat),
{
    let ghost start = s@;
    let mut i: usize = 0;
    while i < lines.len()
        invariant
            i <= lines.len(),
            first + lines.len() <= usize::MAX,
            s@ == start + numbered_lines(lines.deep_view().take(i as int), first as nat, w as nat),
        decreases lines.len() - i,
    {
        proof {
            assert(lines.deep_view().take(i as int + 1).drop_last() =~= lines.deep_view().take(i as int));
            assert(lines.deep_view()[i as int] == lines@[i as int]@);
        }
        push_source_line(s, first + i, w, &lines[i]);
        i = i + 1;
        assert(s@ =~= start + numbered_lines(lines.deep_view().take(i as int), first as nat, w as nat));
    }
    assert(lines.deep_view().take(lines.len() as int) =~= lines.deep_view());
}

} // verus!

verus! {

/// Whether two strings hold the same characters.
pub fn text_eq(a: &str, b: &str) -> (r: bool)
    ensures
        r == (a@ == b@),
{
    let x = chars_of(a);
    let y = chars_of(b);
    if x.len() != y.len() {
        return false;
    }
    let mut i: usize = 0;
    while i < x.len()
        invariant
            x@ == a@,
            y@ == b@,
            x.len() == y.len(),
            i <= x.len(),
            forall|k: int| 0 <= k < i ==> x@[k] == y@[k],
        decreases x.len() - i,
    {
        if x[i] != y[i] {
            assert(x@[i as int] != y@[i as int]);
            assert(x@ != y@);
            return false;
        }
        i = i + 1;
    }
    assert(x@ =~= y@);
    true
}

/// Whether `list` holds a string equal to `x`.
pub fn contains_text(list: &Vec<String>, x: &str) -> (r: bool)
    ensures
        r == list.deep_view().contains(x@),
{
    let mut i: usize = 0;
    while i < list.len()
        invariant
            i <= list.len(),
            forall|k: int| 0 <= k < i ==> list.deep_view()[k] != x@,
        decreases list.len() - i,
    {
        assert(list.deep_view()[i as int] == list@[i as int]@);
        if text_eq(list[i].as_str(), x) {
            return true;
        }
        i = i + 1;
    }
    false
}

/// A copy of a string.
pub fn copy_string(s: &String) -> (r: String)
    ensures
        r@ == s@,
{
    s.clone()
}

} // verus!

verus! {

/// `a` comes before `b` in the order of `str` (code point by code point, a
/// proper prefix first).
pub open spec fn text_lt(a: Seq<char>, b: Seq<char>) -> bool
    decreases a.len(),
{
    if a.len() == 0 {
        b.len() > 0
    } else if b.len() == 0 {
        false
    } else if a[0] != b[0] {
        (a[0] as u32) < (b[0] as u32)
    } else {
        text_lt(a.drop_first(), b.drop_first())
    }
}

/// The order of texts is strict: never both ways.
pub proof fn lemma_text_lt_asym(a: Seq<char>, b: Seq<char>)
    ensures
        !(text_lt(a, b) && text_lt(b, a)),
    decreases a.len(),
{
    if a.len() > 0 && b.len() > 0 && a[0] == b[0] {
        lemma_text_lt_asym(a.drop_first(), b.drop_first());
    }
}

/// The order of texts is total: two different texts are ordered one way.
pub proof fn lemma_text_lt_total(a: Seq<char>, b: Seq<char>)
    requires
        a != b,
    ensures
        text_lt(a, b) || text_lt(b, a),
    decreases a.len(),
{
    if a.len() == 0 {
        assert(b.len() > 0) by {
            if b.len() == 0 {
                assert(a =~= b);
            }
        }
    } else if b.len() > 0 && a[0] == b[0] {
        assert(a.drop_first() != b.drop_first()) by {
            if a.drop_first() == b.drop_first() {
                assert(a =~= seq![a[0]] + a.drop_first());
                assert(b =~= seq![b[0]] + b.drop_first());
            }
        }
        lemma_text_lt_total(a.drop_first(), b.drop_first());
    } else if b.len() > 0 {
        assert((a[0] as u32) != (b[0] as u32)) by {
            vstd::utf8::char_u32_cast(a[0], a[0] as u32);
            vstd::utf8::char_u32_cast(b[0], b[0] as u32);
        }
    }
}

/// The order of texts is transitive.
pub proof fn lemma_text_lt_trans(a: Seq<char>, b: Seq<char>, c: Seq<char>)
    requires
        text_lt(a, b),
        text_lt(b, c),
    ensures
        text_lt(a, c),
    decreases a.len(),
{
    if a.len() > 0 && b.len() > 0 && c.len() > 0 && a[0] == b[0] && b[0] == c[0] {
        lemma_text_lt_trans(a.drop_first(), b.drop_first(), c.drop_first());
    } else if a.len() > 0 && b.len() > 0 && c.len() > 0 {
        if a[0] == c[0] {
            vstd::utf8::char_u32_cast(a[0], a[0] as u32);
            vstd::utf8::char_u32_cast(c[0], c[0] as u32);
        }
    }
}

/// Each item's key comes before the keys of the items after it, so no key
/// occurs twice.
pub open spec fn strictly_sorted<T>(s: Seq<T>, key: spec_fn(T) -> Seq<char>) -> bool {
    forall|i: int, j: int| 0 <= i < j < s.len() ==> text_lt(#[trigger] key(s[i]), #[trigger] key(s[j]))
}

/// Putting an item into a list ordered by key keeps it ordered; the list then
/// holds the item, every item of the list with another key, and nothing else.
pub proof fn law_upsert_keeps_order<T>(s: Seq<T>, key: spec_fn(T) -> Seq<char>, x: T)
    requires
        strictly_sorted(s, key),
    ensures
        strictly_sorted(upsert(s, key, x), key),
        upsert(s, key, x).contains(x),
        forall|y: T| #[trigger] s.contains(y) && key(y) != key(x) ==> upsert(s, key, x).contains(y),
        forall|z: T| #[trigger] upsert(s, key, x).contains(z) ==> z == x || s.contains(z),
    decreases s.len(),
{
    let u = upsert(s, key, x);
    if s.len() == 0 {
        assert(u =~= seq![x]);
        assert(u[0] == x);
    } else if key(s[0]) == key(x) {
        let t = s.drop_first();
        assert(u == seq![x] + t);
        assert(u[0] == x);
        assert forall|i: int, j: int| 0 <= i < j < u.len() implies text_lt(#[trigger] key(u[i]), #[trigger] key(u[j])) by {
            assert(u[j] == s[j]);
            if i > 0 {
                assert(u[i] == s[i]);
            }
        }
        assert forall|y: T| #[trigger] s.contains(y) && key(y) != key(x) implies u.contains(y) by {
            let k = choose|k: int| 0 <= k < s.len() && s[k] == y;
            assert(k > 0);
            assert(u[k] == y);
        }
        assert forall|z: T| #[trigger] u.contains(z) implies z == x || s.contains(z) by {
            let k = choose|k: int| 0 <= k < u.len() && u[k] == z;
            if k > 0 {
                assert(s[k] == z);
            }
        }
    } else if text_lt(key(x), key(s[0])) {
        assert(u == seq![x] + s);
        assert(u[0] == x);
        assert forall|i: int, j: int| 0 <= i < j < u.len() implies text_lt(#[trigger] key(u[i]), #[trigger] key(u[j])) by {
            assert(u[j] == s[j - 1]);
            if i > 0 {
                assert(u[i] == s[i - 1]);
            } else if j > 1 {
                assert(text_lt(key(s[0]), key(s[j - 1])));
                lemma_text_lt_trans(key(x), key(s[0]), key(s[j - 1]));
            }
        }
        assert forall|y: T| #[trigger] s.contains(y) && key(y) != key(x) implies u.contains(y) by {
            let k = choose|k: int| 0 <= k < s.len() && s[k] == y;
            assert(u[k + 1] == y);
        }
        assert forall|z: T| #[trigger] u.contains(z) implies z == x || s.contains(z) by {
            let k = choose|k: int| 0 <= k < u.len() && u[k] == z;
            if k > 0 {
                assert(s[k - 1] == z);
            }
        }
    } else {
        let t = s.drop_first();
        assert forall|i: int, j: int| 0 <= i < j < t.len() implies text_lt(#[trigger] key(t[i]), #[trigger] key(t[j])) by {
            assert(t[i] == s[i + 1]);
            assert(t[j] == s[j + 1]);
        }
        law_upsert_keeps_order(t, key, x);
        let v = upsert(t, key, x);
        assert(u == seq![s[0]] + v);
        lemma_text_lt_total(key(x), key(s[0]));
        assert forall|j: int| 0 <= j < v.len() implies text_lt(key(s[0]), #[trigger] key(v[j])) by {
            assert(v.contains(v[j]));
            if v[j] != x {
                let k = choose|k: int| 0 <= k < t.len() && t[k] == v[j];
                assert(t[k] == s[k + 1]);
            }
        }
        assert forall|i: int, j: int| 0 <= i < j < u.len() implies text_lt(#[trigger] key(u[i]), #[trigger] key(u[j])) by {
            assert(u[j] == v[j - 1]);
            if i > 0 {
                assert(u[i] == v[i - 1]);
            }
        }
        let kx = choose|k: int| 0 <= k < v.len() && v[k] == x;
        assert(u[kx + 1] == x);
        assert forall|y: T| #[trigger] s.contains(y) && key(y) != key(x) implies u.contains(y) by {
            let k = choose|k: int| 0 <= k < s.len() && s[k] == y;
            if k == 0 {
                assert(u[0] == y);
            } else {
                assert(t[k - 1] == y);
                assert(t.contains(y));
                let m = choose|m: int| 0 <= m < v.len() && v[m] == y;
                assert(u[m + 1] == y);
            }
        }
        assert forall|z: T| #[trigger] u.contains(z) implies z == x || s.contains(z) by {
            let k = choose|k: int| 0 <= k < u.len() && u[k] == z;
            if k > 0 {
                assert(v[k - 1] == z);
                assert(v.contains(z));
                if z != x {
                    let m = choose|m: int| 0 <= m < t.len() && t[m] == z;
                    assert(s[m + 1] == z);
                }
            } else {
                assert(s[0] == z);
            }
        }
    }
}

/// `x` put into the list `s` ordered by `key`: in place of the first item with
/// the same key, or before the first item whose key comes after its own, or
/// at the end (the insertion of an ordered map).
pub open spec fn upsert<T>(s: Seq<T>, key: spec_fn(T) -> Seq<char>, x: T) -> Seq<T>
    decreases s.len(),
{
    if s.len() == 0 {
        seq![x]
    } else if key(s[0]) == key(x) {
        seq![x] + s.drop_first()
    } else if text_lt(key(x), key(s[0])) {
        seq![x] + s
    } else {
        seq![s[0]] + upsert(s.drop_first(), key, x)
    }
}

/// Where `upsert` puts `x`: at index `p`, after the items whose keys come
/// before the key of `x`, replacing the item there when it has the same key.
pub proof fn lemma_upsert_at<T>(s: Seq<T>, key: spec_fn(T) -> Seq<char>, x: T, p: int)
    requires
        0 <= p <= s.len(),
        forall|i: int| 0 <= i < p ==> text_lt(#[trigger] key(s[i]), key(x)),
        p < s.len() ==> !text_lt(key(s[p]), key(x)),
    ensures
        upsert(s, key, x) == if p < s.len() && key(s[p]) == key(x) {
            s.take(p) + seq![x] + s.skip(p + 1)
        } else {
            s.take(p) + seq![x] + s.skip(p)
        },
    decreases p,
{
    if s.len() == 0 {
        assert(s.take(p) + seq![x] + s.skip(p) =~= seq![x]);
    } else if p == 0 {
        if key(s[0]) == key(x) {
            assert(s.take(0) + seq![x] + s.skip(1) =~= seq![x] + s.drop_first());
        } else {
            lemma_text_lt_total(key(x), key(s[0]));
            assert(s.take(0) + seq![x] + s.skip(0) =~= seq![x] + s);
        }
    } else {
        lemma_text_lt_asym(key(s[0]), key(x));
        assert(text_lt(key(s[0]), key(x)));
        assert(key(s[0]) != key(x)) by {
            if key(s[0]) == key(x) {
                lemma_text_lt_asym(key(x), key(x));
            }
        }
        let t = s.drop_first();
        assert forall|i: int| 0 <= i < p - 1 implies text_lt(#[trigger] key(t[i]), key(x)) by {
            assert(t[i] == s[i + 1]);
        }
        if p < s.len() {
            assert(t[p - 1] == s[p]);
        }
        lemma_upsert_at(t, key, x, p - 1);
        if p < s.len() && key(s[p]) == key(x) {
            assert(seq![s[0]] + (t.take(p - 1) + seq![x] + t.skip(p)) =~= s.take(p) + seq![x] + s.skip(p + 1));
        } else {
            assert(seq![s[0]] + (t.take(p - 1) + seq![x] + t.skip(p - 1)) =~= s.take(p) + seq![x] + s.skip(p));
        }
    }
}

/// Whether `a` comes before `b`.
pub fn text_less(a: &str, b: &str) -> (r: bool)
    ensures
        r == text_lt(a@, b@),
{
    let x = chars_of(a);
    let y = chars_of(b);
    let mut i: usize = 0;
    assert(x@.skip(0) =~= x@);
    assert(y@.skip(0) =~= y@);
    while i < x.len() && i < y.len()
        invariant
            x@ == a@,
            y@ == b@,
            i <= x.len(),
            i <= y.len(),
            text_lt(a@, b@) == text_lt(x@.skip(i as int), y@.skip(i as int)),
        decreases x.len() - i,
    {
        assert(x@.skip(i as int)[0] == x@[i as int]);
        assert(y@.skip(i as int)[0] == y@[i as int]);
        if x[i] != y[i] {
            return (x[i] as u32) < (y[i] as u32);
        }
        assert(x@.skip(i as int).drop_first() =~= x@.skip(i as int + 1));
        assert(y@.skip(i as int).drop_first() =~= y@.skip(i as int + 1));
        i = i + 1;
    }
    i < y.len()
}

} // verus!

verus! {

/// Whether `c` is white space in Unicode (`char::is_whitespace`).
pub open spec fn is_ws(c: char) -> bool {
    let u = c as u32;
    ||| (0x09 <= u && u <= 0x0D)
    ||| u == 0x20
    ||| u == 0x85
    ||| u == 0xA0
    ||| u == 0x1680
    ||| (0x2000 <= u && u <= 0x200A)
    ||| u == 0x2028
    ||| u == 0x2029
    ||| u == 0x202F
    ||| u == 0x205F
    ||| u == 0x3000
}

/// Whether a character is white space.
pub fn is_whitespace_char(c: char) -> (r: bool)
    ensures
        r == is_ws(c),
{
    let u = c as u32;
    (0x09 <= u && u <= 0x0D) || u == 0x20 || u == 0x85 || u == 0xA0 || u == 0x1680
        || (0x2000 <= u && u <= 0x200A) || u == 0x2028 || u == 0x2029 || u == 0x202F
        || u == 0x205F || u == 0x3000
}

/// `cs` without its leading white space.
pub open spec fn trim_start(cs: Seq<char>) -> Seq<char>
    decreases cs.len(),
{
    if cs.len() > 0 && is_ws(cs[0]) {
        trim_start(cs.drop_first())
    } else {
        cs
    }
}

/// `cs` without its trailing white space.
pub open spec fn trim_end(cs: Seq<char>) -> Seq<char>
    decreases cs.len(),
{
    if cs.len() > 0 && is_ws(cs.last()) {
        trim_end(cs.drop_last())
    } else {
        cs
    }
}

/// `p` is a prefix of `cs`.
pub open spec fn starts_with(cs: Seq<char>, p: Seq<char>) -> bool {
    p.len() <= cs.len() && cs.take(p.len() as int) == p
}

/// Whether `cs` starts with `p`.
pub fn has_prefix(cs: &Vec<char>, p: &Vec<char>) -> (r: bool)
    ensures
        r == starts_with(cs@, p@),
{
    if p.len() > cs.len() {
        return false;
    }
    let mut i: usize = 0;
    while i < p.len()
        invariant
            p.len() <= cs.len(),
            i <= p.len(),
            forall|k: int| 0 <= k < i ==> cs@[k] == p@[k],
        decreases p.len() - i,
    {
        if cs[i] != p[i] {
            assert(cs@.take(p.len() as int)[i as int] != p@[i as int]);
            return false;
        }
        i = i + 1;
    }
    assert(cs@.take(p.len() as int) =~= p@);
    true
}

/// Index of the first non-white-space character of `cs` at or after `from`.
pub fn skip_ws(cs: &Vec<char>, from: usize) -> (r: usize)
    requires
        from <= cs.len(),
    ensures
        from <= r <= cs.len(),
        cs@.skip(r as int) == trim_start(cs@.skip(from as int)),
{
    let mut i = from;
    while i < cs.len() && is_whitespace_char(cs[i])
        invariant
            from <= i <= cs.len(),
            trim_start(cs@.skip(i as int)) == trim_start(cs@.skip(from as int)),
        decreases cs.len() - i,
    {
        assert(cs@.skip(i as int).drop_first() =~= cs@.skip(i as int + 1));
        i = i + 1;
    }
    i
}

/// Whether `cs` holds the character `c`.
pub fn has_char(cs: &Vec<char>, c: char) -> (r: bool)
    ensures
        r == cs@.contains(c),
{
    let mut i: usize = 0;
    while i < cs.len()
        invariant
            i <= cs.len(),
            forall|k: int| 0 <= k < i ==> cs@[k] != c,
        decreases cs.len() - i,
    {
        if cs[i] == c {
            return true;
        }
        i = i + 1;
    }
    false
}

} // verus!
