//! Checks across the parsed locales: calls to functions and terms, references
//! to messages, circular dependencies and variables that differ from the
//! default locale, with the messages that report them.

use vstd::prelude::*;
use crate::ast_util::{
    find_message, message_index, ParsedMessage, content_of, file_content, FileContent,
    find_term, offset_to_line_col, spec_line_col_at, term_index, NamedArgSpan, ParsedLocale,
    ParsedTerm, ReferenceSpan,
};
use crate::custom::{custom_index, find_custom, CustomFunction};
use crate::text::{
    arrow_line, bar_line, blank_prefix, chars_of, decimal, decimal_string, decimal_width, join,
    lemma_text_lines_len, line_at, lines_of, nth_line, numbered_lines, push_arrow_line,
    push_bar_line, push_blank_prefix, push_joined, push_numbered_lines, push_repeat, repeat,
    text_lines, text_eq, contains_text, push_chars, text_less, text_lt, copy_string,
};

verus! {

/// The location `path:line:col`, or `path:line:col-end` for a span wider than one column.
pub open spec fn span_location(path: Seq<char>, line: nat, col: nat, ref_len: nat) -> Seq<char> {
    let base = path + ":"@ + decimal(line) + ":"@ + decimal(col);
    if ref_len > 1 {
        base + "-"@ + decimal((col + ref_len - 1) as nat)
    } else {
        base
    }
}

/// Number of carets under a span from byte `start` to byte `end`: its width, at least one.
pub open spec fn caret_count(start: int, end: int) -> nat {
    if end - start > 1 {
        (end - start) as nat
    } else {
        1
    }
}

/// The report of an error at a span of a source file: the header, the location,
/// the quoted line and carets under the span followed by the label.
pub open spec fn spec_format_span_error(
    path: Seq<char>,
    content: Seq<char>,
    start: int,
    end: int,
    header: Seq<char>,
    label: Seq<char>,
) -> Seq<char> {
    let line = spec_line_col_at(content, start).0;
    let col = spec_line_col_at(content, start).1;
    let line_content = nth_line(content, line - 1);
    let ref_len = caret_count(start, end);
    let w = decimal(line).len();
    header + "\n"@ + arrow_line(w, span_location(path, line, col, ref_len)) + bar_line(w)
        + decimal(line) + " | "@ + line_content + "\n"@ + repeat(' ', w + 1) + "| "@
        + blank_prefix(line_content, col - 1) + repeat('^', ref_len) + " "@ + label + "\n"@
}

/// Line and column of an offset lie between 1 and one more than the number of characters.
pub proof fn lemma_line_col_bound(text: Seq<char>, offset: int)
    ensures
        1 <= spec_line_col_at(text, offset).0 <= text.len() + 1,
        1 <= spec_line_col_at(text, offset).1 <= text.len() + 1,
{
    crate::ast_util::lemma_line_col_at_bound(text, offset);
}

/// The report of a problem at a byte span of a file: the header, the
/// location, the line and carets under the span with the label.
pub fn format_span_error(
    file_path: &str,
    content: &str,
    start: usize,
    end: usize,
    header: &str,
    label: &str,
) -> (r: String)
    requires
        content@.len() < usize::MAX,
    ensures
        r@ == spec_format_span_error(file_path@, content@, start as int, end as int, header@, label@),
{
    let (line, col) = offset_to_line_col(content, start);
    proof {
        lemma_line_col_bound(content@, start as int);
    }
    let cs = chars_of(content);
    let line_content = line_at(&cs, line - 1);
    let ref_len: usize = if end > start && end - start > 1 { end - start } else { 1 };
    assert(ref_len == caret_count(start as int, end as int));
    let end_col: u128 = col as u128 + ref_len as u128 - 1;
    let w = decimal_width(line as u128);
    let mut loc = String::new();
    loc.append(file_path);
    loc.append(":");
    loc.append(decimal_string(line as u128).as_str());
    loc.append(":");
    loc.append(decimal_string(col as u128).as_str());
    if ref_len > 1 {
        loc.append("-");
        loc.append(decimal_string(end_col).as_str());
    }
    assert(loc@ =~= span_location(file_path@, line as nat, col as nat, ref_len as nat));
    let mut out = String::new();
    out.append(header);
    out.append("\n");
    push_arrow_line(&mut out, w, loc.as_str());
    push_bar_line(&mut out, w);
    out.append(decimal_string(line as u128).as_str());
    out.append(" | ");
    crate::text::push_chars(&mut out, &line_content);
    out.append("\n");
    push_repeat(&mut out, ' ', w + 1);
    out.append("| ");
    push_blank_prefix(&mut out, &line_content, col - 1);
    push_repeat(&mut out, '^', ref_len);
    out.append(" ");
    out.append(label);
    out.append("\n");
    assert(out@ =~= spec_format_span_error(file_path@, content@, start as int, end as int, header@, label@));
    out
}

/// The report for a message whose variables differ from the default locale:
/// the quoted definition followed by the expected and the found variables.
pub open spec fn spec_format_snippet_and_notes(
    path: Seq<char>,
    start_line: nat,
    raw: Seq<char>,
    expected: Seq<Seq<char>>,
    found: Seq<Seq<char>>,
) -> Seq<char> {
    let lines = text_lines(raw);
    let max_line = (start_line + if lines.len() > 0 { lines.len() - 1 } else { 0 }) as nat;
    let w = decimal(max_line).len();
    arrow_line(w, path + ":"@ + decimal(start_line)) + bar_line(w) + numbered_lines(lines, start_line, w)
        + bar_line(w) + repeat(' ', w + 1) + "= expected: ["@ + join(expected, ", "@) + "]\n"@
        + repeat(' ', w + 1) + "= found:    ["@ + join(found, ", "@) + "]\n"@
}

/// The quoted definition starting at `start_line`, followed by the expected
/// and the found variables.
pub fn format_snippet_and_notes(
    file_path: &str,
    start_line: usize,
    raw_definition: &str,
    expected_list: &Vec<String>,
    found_list: &Vec<String>,
) -> (r: String)
    requires
        start_line + raw_definition@.len() < usize::MAX,
    ensures
        r@ == spec_format_snippet_and_notes(
            file_path@,
            start_line as nat,
            raw_definition@,
            expected_list.deep_view(),
            found_list.deep_view(),
        ),
{
    let cs = chars_of(raw_definition);
    let lines = lines_of(&cs);
    proof {
        lemma_text_lines_len(cs@);
    }
    let line_count = lines.len();
    let max_line = start_line + if line_count > 0 { line_count - 1 } else { 0 };
    let w = decimal_width(max_line as u128);
    let mut loc = String::new();
    loc.append(file_path);
    loc.append(":");
    loc.append(decimal_string(start_line as u128).as_str());
    let mut out = String::new();
    push_arrow_line(&mut out, w, loc.as_str());
    push_bar_line(&mut out, w);
    push_numbered_lines(&mut out, &lines, start_line, w);
    push_bar_line(&mut out, w);
    push_repeat(&mut out, ' ', w + 1);
    out.append("= expected: [");
    push_joined(&mut out, expected_list, ", ");
    out.append("]\n");
    push_repeat(&mut out, ' ', w + 1);
    out.append("= found:    [");
    push_joined(&mut out, found_list, ", ");
    out.append("]\n");
    assert(out@ =~= spec_format_snippet_and_notes(
        file_path@,
        start_line as nat,
        raw_definition@,
        expected_list.deep_view(),
        found_list.deep_view(),
    ));
    out
}

/// Where an entry taking part in a cycle is defined.
pub struct CycleEntryInfo {
    pub file_path: String,
    pub start_line: usize,
    pub raw_definition: String,
}

/// What a cycle report shows of an entry: file, first line and definition.
pub type EntryView = (Seq<char>, usize, Seq<char>);

pub open spec fn entry_view(e: CycleEntryInfo) -> EntryView {
    (e.file_path@, e.start_line, e.raw_definition@)
}

/// The last line of an entry's definition.
pub open spec fn entry_end(e: EntryView) -> nat {
    let n = text_lines(e.2).len();
    (e.1 + if n > 0 { n - 1 } else { 0 }) as nat
}

/// The largest last line among the entries (1 when there are none).
pub open spec fn max_entry_end(es: Seq<EntryView>) -> nat
    decreases es.len(),
{
    if es.len() == 0 {
        1
    } else if es.len() == 1 {
        entry_end(es[0])
    } else {
        let m = max_entry_end(es.drop_last());
        if entry_end(es.last()) > m {
            entry_end(es.last())
        } else {
            m
        }
    }
}

/// Index list `s` (sorted by `keys`) with `x` placed after every index whose key
/// is not larger: the step of a stable insertion sort.
pub open spec fn insert_by_key(s: Seq<usize>, x: usize, keys: Seq<usize>) -> Seq<usize>
    decreases s.len(),
{
    if s.len() == 0 {
        seq![x]
    } else if keys[x as int] < keys[s.last() as int] {
        insert_by_key(s.drop_last(), x, keys).push(s.last())
    } else {
        s.push(x)
    }
}

/// The indices `0..n` stably sorted by `keys`.
pub open spec fn sort_by_key(n: nat, keys: Seq<usize>) -> Seq<usize>
    decreases n,
{
    if n == 0 {
        Seq::<usize>::empty()
    } else {
        insert_by_key(sort_by_key((n - 1) as nat, keys), (n - 1) as usize, keys)
    }
}

/// The definitions of the entries of a cycle in the order of `order`, with an
/// ellipsis wherever a line is skipped between two of them.
pub open spec fn cycle_body(es: Seq<EntryView>, order: Seq<usize>, prev: Option<nat>, w: nat) -> Seq<char>
    decreases order.len(),
{
    if order.len() == 0 {
        Seq::<char>::empty()
    } else {
        let e = es[order[0] as int];
        let gap = match prev {
            Some(pe) => e.1 > pe + 1,
            None => false,
        };
        (if gap { repeat(' ', w + 1) + "...\n"@ } else { Seq::<char>::empty() })
            + numbered_lines(text_lines(e.2), e.1 as nat, w)
            + cycle_body(es, order.drop_first(), Some(entry_end(e)), w)
    }
}

/// The report of a circular dependency in a locale.
pub open spec fn spec_format_cycle_error(locale_id: Seq<char>, cycle: Seq<Seq<char>>, es: Seq<EntryView>) -> Seq<char> {
    let header = "Circular dependency detected in locale '"@ + locale_id + "'"@;
    if es.len() == 0 {
        header + "\n= cycle: "@ + join(cycle, " -> "@) + "\n"@
    } else {
        let w = decimal(max_entry_end(es)).len();
        let keys = Seq::new(es.len(), |i: int| es[i].1);
        header + "\n"@ + arrow_line(w, es[0].0) + bar_line(w)
            + cycle_body(es, sort_by_key(es.len(), keys), None, w) + bar_line(w)
            + repeat(' ', w + 1) + "= cycle: "@ + join(cycle, " -> "@) + "\n"@
    }
}

/// Every entry's last line fits in a machine word.
pub open spec fn entries_fit(es: Seq<EntryView>) -> bool {
    forall|i: int| #![trigger es[i]] 0 <= i < es.len() ==> es[i].1 + es[i].2.len() + 1 < usize::MAX
}

/// Last line of an entry's definition.
fn entry_end_line(e: &CycleEntryInfo) -> (r: usize)
    requires
        e.start_line + e.raw_definition@.len() + 1 < usize::MAX,
    ensures
        r == entry_end(entry_view(*e)),
        r + 1 < usize::MAX,
{
    let cs = chars_of(e.raw_definition.as_str());
    let lines = lines_of(&cs);
    proof {
        lemma_text_lines_len(cs@);
    }
    let n = lines.len();
    e.start_line + if n > 0 { n - 1 } else { 0 }
}

proof fn lemma_insert_by_key_len(s: Seq<usize>, x: usize, keys: Seq<usize>)
    ensures
        insert_by_key(s, x, keys).len() == s.len() + 1,
    decreases s.len(),
{
    if s.len() > 0 && keys[x as int] < keys[s.last() as int] {
        lemma_insert_by_key_len(s.drop_last(), x, keys);
    }
}

/// `insert_by_key` puts `x` at the position found by scanning back over larger keys.
proof fn lemma_insert_by_key_at(s: Seq<usize>, x: usize, keys: Seq<usize>, j: int)
    requires
        0 <= j <= s.len(),
        forall|t: int| j <= t < s.len() ==> keys[x as int] < keys[#[trigger] s[t] as int],
        j > 0 ==> !(keys[x as int] < keys[s[j - 1] as int]),
    ensures
        insert_by_key(s, x, keys) == s.take(j) + seq![x] + s.skip(j),
    decreases s.len(),
{
    if s.len() == 0 {
        assert(s.take(j) + seq![x] + s.skip(j) =~= seq![x]);
    } else if j < s.len() {
        assert(keys[x as int] < keys[s.last() as int]);
        lemma_insert_by_key_at(s.drop_last(), x, keys, j);
        assert(s.drop_last().take(j) + seq![x] + s.drop_last().skip(j) + seq![s.last()] =~= s.take(j) + seq![x] + s.skip(j));
    } else {
        assert(s.take(j) + seq![x] + s.skip(j) =~= s.push(x));
    }
}

/// The indices `0..keys.len()` stably sorted by key.
fn sort_indices_by_key(keys: &Vec<usize>) -> (r: Vec<usize>)
    ensures
        r@ == sort_by_key(keys.len() as nat, keys@),
{
    let mut r: Vec<usize> = Vec::new();
    let mut i: usize = 0;
    while i < keys.len()
        invariant
            i <= keys.len(),
            r@ == sort_by_key(i as nat, keys@),
            r.len() == i,
            forall|t: int| 0 <= t < r.len() ==> #[trigger] r@[t] < i,
        decreases keys.len() - i,
    {
        let mut j: usize = r.len();
        while j > 0 && keys[i] < keys[r[j - 1]]
            invariant
                j <= r.len(),
                r.len() == i,
                i < keys.len(),
                forall|t: int| 0 <= t < r.len() ==> #[trigger] r@[t] < i,
                forall|t: int| j <= t < r.len() ==> keys@[i as int] < keys@[#[trigger] r@[t] as int],
            decreases j,
        {
            j = j - 1;
        }
        proof {
            lemma_insert_by_key_at(r@, i, keys@, j as int);
        }
        let ghost old_r = r@;
        r.insert(j, i);
        assert(r@ =~= old_r.take(j as int) + seq![i] + old_r.skip(j as int));
        i = i + 1;
        assert forall|t: int| 0 <= t < r.len() implies #[trigger] r@[t] < i by {
            if t < j {
                assert(r@[t] == old_r[t]);
            } else if t > j {
                assert(r@[t] == old_r[t - 1]);
            }
        }
    }
    r
}

/// The report of a circular dependency: the entries along the cycle quoted
/// in the order of their lines, then the cycle itself.
pub fn format_cycle_error(locale_id: &str, cycle: &Vec<String>, entries: &Vec<CycleEntryInfo>) -> (r: String)
    requires
        entries_fit(entries@.map_values(|e: CycleEntryInfo| entry_view(e))),
    ensures
        r@ == spec_format_cycle_error(locale_id@, cycle.deep_view(), entries@.map_values(|e: CycleEntryInfo| entry_view(e))),
{
    let mut out = String::new();
    out.append("Circular dependency detected in locale '");
    out.append(locale_id);
    out.append("'");
    if entries.len() == 0 {
        out.append("\n= cycle: ");
        push_joined(&mut out, cycle, " -> ");
        out.append("\n");
        assert(out@ =~= spec_format_cycle_error(locale_id@, cycle.deep_view(), entries@.map_values(|e: CycleEntryInfo| entry_view(e))));
        return out;
    }
    let ghost es = entries@.map_values(|e: CycleEntryInfo| entry_view(e));
    assert(es[0] == entry_view(entries@[0]));
    assert(es[0].1 + es[0].2.len() + 1 < usize::MAX);
    let mut max_line: usize = entry_end_line(&entries[0]);
    let mut i: usize = 1;
    assert(es.take(1) =~= seq![es[0]]);
    while i < entries.len()
        invariant
            es == entries@.map_values(|e: CycleEntryInfo| entry_view(e)),
            entries_fit(es),
            1 <= i <= entries.len(),
            max_line == max_entry_end(es.take(i as int)),
        decreases entries.len() - i,
    {
        assert(es.take(i as int + 1).drop_last() =~= es.take(i as int));
        assert(es[i as int] == entry_view(entries@[i as int]));
        assert(es[i as int].1 + es[i as int].2.len() + 1 < usize::MAX);
        let e = entry_end_line(&entries[i]);
        if e > max_line {
            max_line = e;
        }
        i = i + 1;
    }
    assert(es.take(entries.len() as int) =~= es);
    let w = decimal_width(max_line as u128);
    out.append("\n");
    push_arrow_line(&mut out, w, entries[0].file_path.as_str());
    push_bar_line(&mut out, w);
    let mut keys: Vec<usize> = Vec::new();
    let mut k: usize = 0;
    while k < entries.len()
        invariant
            es == entries@.map_values(|e: CycleEntryInfo| entry_view(e)),
            k <= entries.len(),
            keys@ == Seq::new(k as nat, |t: int| es[t].1),
        decreases entries.len() - k,
    {
        keys.push(entries[k].start_line);
        k = k + 1;
        assert(keys@ =~= Seq::new(k as nat, |t: int| es[t].1));
    }
    let order = sort_indices_by_key(&keys);
    let ghost ord = order@;
    proof {
        lemma_sort_by_key_members(keys.len() as nat, keys@);
    }
    let ghost body_start = out@;
    let mut prev_end: Option<usize> = None;
    let mut t: usize = 0;
    assert(ord.skip(0) =~= ord);
    while t < order.len()
        invariant
            es == entries@.map_values(|e: CycleEntryInfo| entry_view(e)),
            entries_fit(es),
            ord == order@,
            forall|q: int| 0 <= q < ord.len() ==> #[trigger] ord[q] < es.len(),
            t <= order.len(),
            out@ + cycle_body(es, ord.skip(t as int), match prev_end { Some(p) => Some(p as nat), None => None }, w as nat)
                == body_start + cycle_body(es, ord, None, w as nat),
            w <= 39,
            prev_end matches Some(p) ==> p + 1 < usize::MAX,
        decreases order.len() - t,
    {
        let idx = order[t];
        let e = &entries[idx];
        proof {
            assert(ord.skip(t as int).drop_first() =~= ord.skip(t as int + 1));
            assert(ord.skip(t as int)[0] == idx);
            assert(es[idx as int].1 + es[idx as int].2.len() + 1 < usize::MAX);
        }
        let gap = match prev_end {
            Some(pe) => e.start_line > pe + 1,
            None => false,
        };
        if gap {
            push_repeat(&mut out, ' ', w + 1);
            out.append("...\n");
        }
        let cs = chars_of(e.raw_definition.as_str());
        let lines = lines_of(&cs);
        proof {
            lemma_text_lines_len(cs@);
        }
        push_numbered_lines(&mut out, &lines, e.start_line, w);
        prev_end = Some(entry_end_line(e));
        t = t + 1;
    }
    push_bar_line(&mut out, w);
    push_repeat(&mut out, ' ', w + 1);
    out.append("= cycle: ");
    push_joined(&mut out, cycle, " -> ");
    out.append("\n");
    assert(out@ =~= spec_format_cycle_error(locale_id@, cycle.deep_view(), entries@.map_values(|e: CycleEntryInfo| entry_view(e))));
    out
}

proof fn lemma_insert_by_key_members(s: Seq<usize>, x: usize, keys: Seq<usize>, n: nat)
    requires
        x < n,
        forall|q: int| 0 <= q < s.len() ==> #[trigger] s[q] < n,
    ensures
        forall|q: int| 0 <= q < insert_by_key(s, x, keys).len() ==> #[trigger] insert_by_key(s, x, keys)[q] < n,
    decreases s.len(),
{
    if s.len() > 0 {
        if keys[x as int] < keys[s.last() as int] {
            assert forall|q: int| 0 <= q < s.drop_last().len() implies #[trigger] s.drop_last()[q] < n by {
                assert(s.drop_last()[q] == s[q]);
            }
            lemma_insert_by_key_members(s.drop_last(), x, keys, n);
            let inner = insert_by_key(s.drop_last(), x, keys);
            assert(insert_by_key(s, x, keys) == inner.push(s.last()));
            assert(s.last() == s[s.len() - 1]);
        } else {
            assert(insert_by_key(s, x, keys) == s.push(x));
        }
    }
}

proof fn lemma_sort_by_key_members(n: nat, keys: Seq<usize>)
    ensures
        forall|q: int| 0 <= q < sort_by_key(n, keys).len() ==> #[trigger] sort_by_key(n, keys)[q] < n,
    decreases n,
{
    if n > 0 {
        lemma_sort_by_key_members((n - 1) as nat, keys);
        lemma_insert_by_key_members(sort_by_key((n - 1) as nat, keys), (n - 1) as usize, keys, n);
    }
}

/// Where an error was found: ` in <kind> '<id>' for locale '<locale>'`.
pub open spec fn spec_ctx(kind: Seq<char>, id: Seq<char>, loc: Seq<char>) -> Seq<char> {
    " in "@ + kind + " '"@ + id + "' for locale '"@ + loc + "'"@
}

/// The plural ending for a count.
pub open spec fn plural(n: nat) -> Seq<char> {
    if n == 1 {
        Seq::<char>::empty()
    } else {
        "s"@
    }
}

/// Options that `NUMBER` accepts.
pub open spec fn number_option(n: Seq<char>) -> bool {
    ||| n == "currency"@
    ||| n == "currencyDisplay"@
    ||| n == "useGrouping"@
    ||| n == "minimumIntegerDigits"@
    ||| n == "minimumFractionDigits"@
    ||| n == "maximumFractionDigits"@
    ||| n == "minimumSignificantDigits"@
    ||| n == "maximumSignificantDigits"@
    ||| n == "style"@
}

/// Options that `DATETIME` accepts.
pub open spec fn datetime_option(n: Seq<char>) -> bool {
    ||| n == "dateStyle"@
    ||| n == "timeStyle"@
    ||| n == "fractionalSecondDigits"@
    ||| n == "dayPeriod"@
    ||| n == "hour12"@
    ||| n == "weekday"@
    ||| n == "era"@
    ||| n == "year"@
    ||| n == "month"@
    ||| n == "day"@
    ||| n == "hour"@
    ||| n == "minute"@
    ||| n == "second"@
    ||| n == "timeZoneName"@
}

/// Whether a function accepts the named option: custom functions (`mode` 0)
/// accept none, `NUMBER` (1) and `DATETIME` (2) their own lists.
pub open spec fn option_allowed(mode: int, n: Seq<char>) -> bool {
    if mode == 1 {
        number_option(n)
    } else if mode == 2 {
        datetime_option(n)
    } else {
        false
    }
}

/// Errors for the named options of a call to function `f` that it does not accept.
pub open spec fn option_errors(
    path: Seq<char>,
    content: Seq<char>,
    named: Seq<NamedArgSpan>,
    f: Seq<char>,
    ctx: Seq<char>,
    mode: int,
) -> Seq<Seq<char>>
    decreases named.len(),
{
    if named.len() == 0 {
        Seq::empty()
    } else {
        let n = named.last();
        option_errors(path, content, named.drop_last(), f, ctx, mode) + if option_allowed(mode, n.name@) {
            Seq::<Seq<char>>::empty()
        } else {
            seq![spec_format_span_error(path, content, n.start as int, n.end as int,
                "Unknown argument '"@ + n.name@ + "' in call to function '"@ + f + "'"@ + ctx,
                "Function '"@ + f + "' does not accept option '"@ + n.name@ + "'"@)]
        }
    }
}

/// Errors for one call of a function: a custom function must get as many
/// positional arguments as it has parameters and no options; the built-in
/// `NUMBER` and `DATETIME` one positional argument and only their own
/// options; the built-in `VOID` is not checked further; any other name is
/// an unknown function.
pub open spec fn function_ref_errors(
    path: Seq<char>,
    content: Seq<char>,
    r: ReferenceSpan,
    ctx: Seq<char>,
    customs: Seq<CustomFunction>,
) -> Seq<Seq<char>> {
    let f = r.name@;
    let pos = r.positional_count as nat;
    let ci = custom_index(customs, f);
    if ci >= 0 {
        let pc = customs[ci].param_count as nat;
        (if pos != pc {
            seq![spec_format_span_error(path, content, r.start as int, r.end as int,
                "Function '"@ + f + "' requires exactly "@ + decimal(pc) + " positional argument"@ + plural(pc)
                    + ", found "@ + decimal(pos) + ctx,
                "Expected "@ + decimal(pc) + " argument"@ + plural(pc) + ", found "@ + decimal(pos))]
        } else {
            Seq::<Seq<char>>::empty()
        }) + option_errors(path, content, r.named_args@, f, ctx, 0)
    } else if f == "VOID"@ {
        Seq::empty()
    } else if f != "NUMBER"@ && f != "DATETIME"@ {
        seq![spec_format_span_error(path, content, r.start as int, r.end as int,
            "Unknown function"@ + ctx, "Function '"@ + f + "' is not defined"@)]
    } else {
        (if pos != 1 {
            seq![spec_format_span_error(path, content, r.start as int, r.end as int,
                "Function '"@ + f + "' requires exactly 1 positional argument, found "@ + decimal(pos) + ctx,
                "Expected 1 argument, found "@ + decimal(pos))]
        } else {
            Seq::<Seq<char>>::empty()
        }) + option_errors(path, content, r.named_args@, f, ctx, if f == "NUMBER"@ { 1 } else { 2 })
    }
}

/// Errors for a list of function calls, in order.
pub open spec fn function_refs_errors(
    path: Seq<char>,
    content: Seq<char>,
    rs: Seq<ReferenceSpan>,
    ctx: Seq<char>,
    customs: Seq<CustomFunction>,
) -> Seq<Seq<char>>
    decreases rs.len(),
{
    if rs.len() == 0 {
        Seq::empty()
    } else {
        function_refs_errors(path, content, rs.drop_last(), ctx, customs)
            + function_ref_errors(path, content, rs.last(), ctx, customs)
    }
}

/// The names of the named arguments of a call.
pub open spec fn named_names(r: ReferenceSpan) -> Seq<Seq<char>> {
    r.named_args@.map_values(|a: NamedArgSpan| a.name@)
}

/// Errors for the variables of term `t` that the call `r` does not pass.
pub open spec fn missing_arg_errors(
    path: Seq<char>,
    content: Seq<char>,
    r: ReferenceSpan,
    vars: Seq<Seq<char>>,
    ctx: Seq<char>,
) -> Seq<Seq<char>>
    decreases vars.len(),
{
    if vars.len() == 0 {
        Seq::empty()
    } else {
        let v = vars.last();
        missing_arg_errors(path, content, r, vars.drop_last(), ctx) + if named_names(r).contains(v) {
            Seq::<Seq<char>>::empty()
        } else {
            seq![spec_format_span_error(path, content, r.start as int, r.end as int,
                "Missing argument '"@ + v + "' in call to term '"@ + r.name@ + "'"@ + ctx,
                "Missing argument '"@ + v + "'"@)]
        }
    }
}

/// Errors for the named arguments of the call `r` that the term does not use.
pub open spec fn unknown_arg_errors(
    path: Seq<char>,
    content: Seq<char>,
    r: ReferenceSpan,
    named: Seq<NamedArgSpan>,
    vars: Seq<Seq<char>>,
    ctx: Seq<char>,
) -> Seq<Seq<char>>
    decreases named.len(),
{
    if named.len() == 0 {
        Seq::empty()
    } else {
        let n = named.last();
        unknown_arg_errors(path, content, r, named.drop_last(), vars, ctx) + if vars.contains(n.name@) {
            Seq::<Seq<char>>::empty()
        } else {
            seq![spec_format_span_error(path, content, n.start as int, n.end as int,
                "Unknown argument '"@ + n.name@ + "' in call to term '"@ + r.name@ + "'"@ + ctx,
                "Term '"@ + r.name@ + "' does not accept argument '"@ + n.name@ + "'"@)]
        }
    }
}

/// Errors for one reference to a term.
pub open spec fn term_ref_errors(
    path: Seq<char>,
    content: Seq<char>,
    r: ReferenceSpan,
    ctx: Seq<char>,
    loc: Seq<char>,
    terms: Seq<ParsedTerm>,
) -> Seq<Seq<char>> {
    let ti = term_index(terms, r.name@);
    if ti < 0 {
        seq![spec_format_span_error(path, content, r.start as int, r.end as int,
            "Missing dependency"@ + ctx, "Term '"@ + r.name@ + "' is not defined in locale '"@ + loc + "'"@)]
    } else {
        let vars = terms[ti].variables.deep_view();
        (if r.positional_count > 0 {
            seq![spec_format_span_error(path, content, r.start as int, r.end as int,
                "Terms only accept named arguments in call to '"@ + r.name@ + "'"@ + ctx,
                "Terms do not accept positional arguments"@)]
        } else {
            Seq::<Seq<char>>::empty()
        }) + missing_arg_errors(path, content, r, vars, ctx) + unknown_arg_errors(path, content, r, r.named_args@, vars, ctx)
    }
}

/// Errors for a list of term references, in order.
pub open spec fn term_refs_errors(
    path: Seq<char>,
    content: Seq<char>,
    rs: Seq<ReferenceSpan>,
    ctx: Seq<char>,
    loc: Seq<char>,
    terms: Seq<ParsedTerm>,
) -> Seq<Seq<char>>
    decreases rs.len(),
{
    if rs.len() == 0 {
        Seq::empty()
    } else {
        term_refs_errors(path, content, rs.drop_last(), ctx, loc, terms) + term_ref_errors(path, content, rs.last(), ctx, loc, terms)
    }
}

/// All errors of the calls made by one entry: first its function calls, then its term references.
pub open spec fn spec_validate_calls(
    kind: Seq<char>,
    id: Seq<char>,
    path: Seq<char>,
    content: Seq<char>,
    term_refs: Seq<ReferenceSpan>,
    fn_refs: Seq<ReferenceSpan>,
    loc: Seq<char>,
    terms: Seq<ParsedTerm>,
    customs: Seq<CustomFunction>,
) -> Seq<Seq<char>> {
    let ctx = spec_ctx(kind, id, loc);
    function_refs_errors(path, content, fn_refs, ctx, customs) + term_refs_errors(path, content, term_refs, ctx, loc, terms)
}

fn push_ctx(s: &mut String, kind: &str, id: &str, loc: &str)
    ensures
        final(s)@ == old(s)@ + spec_ctx(kind@, id@, loc@),
{
    let ghost start = s@;
    s.append(" in ");
    s.append(kind);
    s.append(" '");
    s.append(id);
    s.append("' for locale '");
    s.append(loc);
    s.append("'");
    assert(s@ =~= start + spec_ctx(kind@, id@, loc@));
}

fn push_plural(s: &mut String, n: usize)
    ensures
        final(s)@ == old(s)@ + plural(n as nat),
{
    if n != 1 {
        s.append("s");
    } else {
        assert(s@ =~= s@ + plural(n as nat));
    }
}

fn push_error(errors: &mut Vec<String>, e: String)
    ensures
        final(errors).deep_view() == old(errors).deep_view().push(e@),
{
    let ghost before = errors@;
    let ghost bd = errors.deep_view();
    errors.push(e);
    assert forall|k: int| 0 <= k < errors.len() implies errors.deep_view()[k] == bd.push(e@)[k] by {
        if k < before.len() {
            assert(errors@[k] == before[k]);
        }
    }
    assert(errors.deep_view() =~= bd.push(e@));
}

/// Whether the option is one that `NUMBER` (mode 1) or `DATETIME` (mode 2) accepts.
fn option_is_allowed(mode: usize, n: &str) -> (r: bool)
    ensures
        r == option_allowed(mode as int, n@),
{
    if mode == 1 {
        text_eq(n, "currency") || text_eq(n, "currencyDisplay") || text_eq(n, "useGrouping")
            || text_eq(n, "minimumIntegerDigits") || text_eq(n, "minimumFractionDigits")
            || text_eq(n, "maximumFractionDigits") || text_eq(n, "minimumSignificantDigits")
            || text_eq(n, "maximumSignificantDigits") || text_eq(n, "style")
    } else if mode == 2 {
        text_eq(n, "dateStyle") || text_eq(n, "timeStyle") || text_eq(n, "fractionalSecondDigits")
            || text_eq(n, "dayPeriod") || text_eq(n, "hour12") || text_eq(n, "weekday")
            || text_eq(n, "era") || text_eq(n, "year") || text_eq(n, "month") || text_eq(n, "day")
            || text_eq(n, "hour") || text_eq(n, "minute") || text_eq(n, "second")
            || text_eq(n, "timeZoneName")
    } else {
        false
    }
}

fn push_option_errors(
    errors: &mut Vec<String>,
    path: &str,
    content: &str,
    named: &Vec<NamedArgSpan>,
    f: &str,
    kind: &str,
    id: &str,
    loc: &str,
    mode: usize,
)
    requires
        content@.len() < usize::MAX,
    ensures
        final(errors).deep_view() == old(errors).deep_view() + option_errors(
            path@, content@, named@, f@, spec_ctx(kind@, id@, loc@), mode as int),
{
    let ghost start = errors.deep_view();
    let ghost ctx = spec_ctx(kind@, id@, loc@);
    let mut i: usize = 0;
    while i < named.len()
        invariant
            i <= named.len(),
            content@.len() < usize::MAX,
            ctx == spec_ctx(kind@, id@, loc@),
            errors.deep_view() == start + option_errors(path@, content@, named@.take(i as int), f@, ctx, mode as int),
        decreases named.len() - i,
    {
        let n = &named[i];
        assert(named@.take(i as int + 1).drop_last() =~= named@.take(i as int));
        assert(named@.take(i as int + 1).last() == named@[i as int]);
        if !option_is_allowed(mode, n.name.as_str()) {
            let mut h = String::new();
            h.append("Unknown argument '");
            h.append(n.name.as_str());
            h.append("' in call to function '");
            h.append(f);
            h.append("'");
            push_ctx(&mut h, kind, id, loc);
            let mut l = String::new();
            l.append("Function '");
            l.append(f);
            l.append("' does not accept option '");
            l.append(n.name.as_str());
            l.append("'");
            let e = format_span_error(path, content, n.start, n.end, h.as_str(), l.as_str());
            push_error(errors, e);
        }
        i = i + 1;
        assert(errors.deep_view() =~= start + option_errors(path@, content@, named@.take(i as int), f@, ctx, mode as int));
    }
    assert(named@.take(named.len() as int) =~= named@);
}

fn function_ref_check(
    errors: &mut Vec<String>,
    path: &str,
    content: &str,
    r: &ReferenceSpan,
    kind: &str,
    id: &str,
    loc: &str,
    customs: &Vec<CustomFunction>,
)
    requires
        content@.len() < usize::MAX,
    ensures
        final(errors).deep_view() == old(errors).deep_view() + function_ref_errors(
            path@, content@, *r, spec_ctx(kind@, id@, loc@), customs@),
{
    let ghost start = errors.deep_view();
    let f = r.name.as_str();
    let pos = r.positional_count;
    match find_custom(customs, f) {
        Some(ci) => {
            let pc = customs[ci].param_count;
            if pos != pc {
                let mut h = String::new();
                h.append("Function '");
                h.append(f);
                h.append("' requires exactly ");
                h.append(decimal_string(pc as u128).as_str());
                h.append(" positional argument");
                push_plural(&mut h, pc);
                h.append(", found ");
                h.append(decimal_string(pos as u128).as_str());
                push_ctx(&mut h, kind, id, loc);
                let mut l = String::new();
                l.append("Expected ");
                l.append(decimal_string(pc as u128).as_str());
                l.append(" argument");
                push_plural(&mut l, pc);
                l.append(", found ");
                l.append(decimal_string(pos as u128).as_str());
                let e = format_span_error(path, content, r.start, r.end, h.as_str(), l.as_str());
                push_error(errors, e);
            }
            push_option_errors(errors, path, content, &r.named_args, f, kind, id, loc, 0);
            assert(errors.deep_view() =~= start + function_ref_errors(path@, content@, *r, spec_ctx(kind@, id@, loc@), customs@));
        },
        None => {
            let is_void = text_eq(f, "VOID");
            let is_number = text_eq(f, "NUMBER");
            let is_datetime = text_eq(f, "DATETIME");
            if is_void {
                assert(errors.deep_view() =~= start + function_ref_errors(path@, content@, *r, spec_ctx(kind@, id@, loc@), customs@));
            } else if !is_number && !is_datetime {
                let mut h = String::new();
                h.append("Unknown function");
                push_ctx(&mut h, kind, id, loc);
                let mut l = String::new();
                l.append("Function '");
                l.append(f);
                l.append("' is not defined");
                let e = format_span_error(path, content, r.start, r.end, h.as_str(), l.as_str());
                push_error(errors, e);
                assert(errors.deep_view() =~= start + function_ref_errors(path@, content@, *r, spec_ctx(kind@, id@, loc@), customs@));
            } else {
                if pos != 1 {
                    let mut h = String::new();
                    h.append("Function '");
                    h.append(f);
                    h.append("' requires exactly 1 positional argument, found ");
                    h.append(decimal_string(pos as u128).as_str());
                    push_ctx(&mut h, kind, id, loc);
                    let mut l = String::new();
                    l.append("Expected 1 argument, found ");
                    l.append(decimal_string(pos as u128).as_str());
                    let e = format_span_error(path, content, r.start, r.end, h.as_str(), l.as_str());
                    push_error(errors, e);
                }
                let mode: usize = if is_number { 1 } else { 2 };
                push_option_errors(errors, path, content, &r.named_args, f, kind, id, loc, mode);
                assert(errors.deep_view() =~= start + function_ref_errors(path@, content@, *r, spec_ctx(kind@, id@, loc@), customs@));
            }
        },
    }
}

/// Whether the call passes a named argument called `v`.
fn passes_argument(r: &ReferenceSpan, v: &str) -> (b: bool)
    ensures
        b == named_names(*r).contains(v@),
{
    let mut i: usize = 0;
    while i < r.named_args.len()
        invariant
            i <= r.named_args.len(),
            forall|k: int| 0 <= k < i ==> #[trigger] named_names(*r)[k] != v@,
        decreases r.named_args.len() - i,
    {
        if text_eq(r.named_args[i].name.as_str(), v) {
            assert(named_names(*r)[i as int] == v@);
            return true;
        }
        i = i + 1;
    }
    false
}

#[verifier::spinoff_prover]
#[verifier::rlimit(50)]
fn term_ref_check(
    errors: &mut Vec<String>,
    path: &str,
    content: &str,
    r: &ReferenceSpan,
    kind: &str,
    id: &str,
    loc: &str,
    terms: &Vec<ParsedTerm>,
)
    requires
        content@.len() < usize::MAX,
    ensures
        final(errors).deep_view() == old(errors).deep_view() + term_ref_errors(
            path@, content@, *r, spec_ctx(kind@, id@, loc@), loc@, terms@),
{
    let ghost start = errors.deep_view();
    let ghost ctx = spec_ctx(kind@, id@, loc@);
    match find_term(terms, r.name.as_str()) {
        None => {
            let mut h = String::new();
            h.append("Missing dependency");
            push_ctx(&mut h, kind, id, loc);
            let mut l = String::new();
            l.append("Term '");
            l.append(r.name.as_str());
            l.append("' is not defined in locale '");
            l.append(loc);
            l.append("'");
            let e = format_span_error(path, content, r.start, r.end, h.as_str(), l.as_str());
            push_error(errors, e);
            assert(errors.deep_view() =~= start + term_ref_errors(path@, content@, *r, ctx, loc@, terms@));
        },
        Some(ti) => {
            let target = &terms[ti];
            let ghost vars = target.variables.deep_view();
            if r.positional_count > 0 {
                let mut h = String::new();
                h.append("Terms only accept named arguments in call to '");
                h.append(r.name.as_str());
                h.append("'");
                push_ctx(&mut h, kind, id, loc);
                let e = format_span_error(path, content, r.start, r.end, h.as_str(), "Terms do not accept positional arguments");
                push_error(errors, e);
            }
            let ghost after_pos = errors.deep_view();
            let mut i: usize = 0;
            while i < target.variables.len()
                invariant
                    i <= target.variables.len(),
                    vars == target.variables.deep_view(),
                    content@.len() < usize::MAX,
                    ctx == spec_ctx(kind@, id@, loc@),
                    errors.deep_view() == after_pos + missing_arg_errors(path@, content@, *r, vars.take(i as int), ctx),
                decreases target.variables.len() - i,
            {
                let v = target.variables[i].as_str();
                assert(vars.take(i as int + 1).drop_last() =~= vars.take(i as int));
                assert(vars[i as int] == v@);
                if !passes_argument(r, v) {
                    let mut h = String::new();
                    h.append("Missing argument '");
                    h.append(v);
                    h.append("' in call to term '");
                    h.append(r.name.as_str());
                    h.append("'");
                    push_ctx(&mut h, kind, id, loc);
                    let mut l = String::new();
                    l.append("Missing argument '");
                    l.append(v);
                    l.append("'");
                    let e = format_span_error(path, content, r.start, r.end, h.as_str(), l.as_str());
                    push_error(errors, e);
                }
                i = i + 1;
                assert(errors.deep_view() =~= after_pos + missing_arg_errors(path@, content@, *r, vars.take(i as int), ctx));
            }
            assert(vars.take(target.variables.len() as int) =~= vars);
            let ghost after_missing = errors.deep_view();
            let mut i: usize = 0;
            while i < r.named_args.len()
                invariant
                    i <= r.named_args.len(),
                    vars == target.variables.deep_view(),
                    content@.len() < usize::MAX,
                    ctx == spec_ctx(kind@, id@, loc@),
                    errors.deep_view() == after_missing + unknown_arg_errors(path@, content@, *r, r.named_args@.take(i as int), vars, ctx),
                decreases r.named_args.len() - i,
            {
                let n = &r.named_args[i];
                assert(r.named_args@.take(i as int + 1).drop_last() =~= r.named_args@.take(i as int));
                if !contains_text(&target.variables, n.name.as_str()) {
                    let mut h = String::new();
                    h.append("Unknown argument '");
                    h.append(n.name.as_str());
                    h.append("' in call to term '");
                    h.append(r.name.as_str());
                    h.append("'");
                    push_ctx(&mut h, kind, id, loc);
                    let mut l = String::new();
                    l.append("Term '");
                    l.append(r.name.as_str());
                    l.append("' does not accept argument '");
                    l.append(n.name.as_str());
                    l.append("'");
                    let e = format_span_error(path, content, n.start, n.end, h.as_str(), l.as_str());
                    push_error(errors, e);
                }
                i = i + 1;
                assert(errors.deep_view() =~= after_missing + unknown_arg_errors(path@, content@, *r, r.named_args@.take(i as int), vars, ctx));
            }
            assert(r.named_args@.take(r.named_args.len() as int) =~= r.named_args@);
            assert(errors.deep_view() =~= start + term_ref_errors(path@, content@, *r, ctx, loc@, terms@));
        },
    }
}

/// Checks the calls made by one entry: every function it calls must exist and be
/// given the arguments it takes, and every term it references must exist and be
/// given exactly the variables it uses. Appends one error per problem.
#[verifier::spinoff_prover]
pub fn validate_calls(
    entry_kind: &str,
    entry_id: &str,
    file_path: &str,
    content: &str,
    term_references: &Vec<ReferenceSpan>,
    function_references: &Vec<ReferenceSpan>,
    locale_id: &str,
    locale: &ParsedLocale,
    custom_functions: &Vec<CustomFunction>,
    errors: &mut Vec<String>,
)
    requires
        content@.len() < usize::MAX,
    ensures
        final(errors).deep_view() == old(errors).deep_view() + spec_validate_calls(
            entry_kind@, entry_id@, file_path@, content@, term_references@, function_references@,
            locale_id@, locale.terms@, custom_functions@),
{
    let ghost start = errors.deep_view();
    let ghost ctx = spec_ctx(entry_kind@, entry_id@, locale_id@);
    let mut i: usize = 0;
    while i < function_references.len()
        invariant
            i <= function_references.len(),
            content@.len() < usize::MAX,
            ctx == spec_ctx(entry_kind@, entry_id@, locale_id@),
            errors.deep_view() == start + function_refs_errors(file_path@, content@, function_references@.take(i as int), ctx, custom_functions@),
        decreases function_references.len() - i,
    {
        assert(function_references@.take(i as int + 1).drop_last() =~= function_references@.take(i as int));
        function_ref_check(errors, file_path, content, &function_references[i], entry_kind, entry_id, locale_id, custom_functions);
        i = i + 1;
        assert(errors.deep_view() =~= start + function_refs_errors(file_path@, content@, function_references@.take(i as int), ctx, custom_functions@));
    }
    assert(function_references@.take(function_references.len() as int) =~= function_references@);
    let ghost mid = errors.deep_view();
    let mut i: usize = 0;
    while i < term_references.len()
        invariant
            i <= term_references.len(),
            content@.len() < usize::MAX,
            ctx == spec_ctx(entry_kind@, entry_id@, locale_id@),
            errors.deep_view() == mid + term_refs_errors(file_path@, content@, term_references@.take(i as int), ctx, locale_id@, locale.terms@),
        decreases term_references.len() - i,
    {
        assert(term_references@.take(i as int + 1).drop_last() =~= term_references@.take(i as int));
        term_ref_check(errors, file_path, content, &term_references[i], entry_kind, entry_id, locale_id, &locale.terms);
        i = i + 1;
        assert(errors.deep_view() =~= mid + term_refs_errors(file_path@, content@, term_references@.take(i as int), ctx, locale_id@, locale.terms@));
    }
    assert(term_references@.take(term_references.len() as int) =~= term_references@);
    assert(errors.deep_view() =~= start + spec_validate_calls(
        entry_kind@, entry_id@, file_path@, content@, term_references@, function_references@,
        locale_id@, locale.terms@, custom_functions@));
}

/// Two sorted lists of ids merged into one sorted list, an id found at the head
/// of both taken once: the node set of the dependency graph.
pub open spec fn merge_ids(a: Seq<Seq<char>>, b: Seq<Seq<char>>) -> Seq<Seq<char>>
    decreases a.len() + b.len(),
{
    if a.len() == 0 {
        b
    } else if b.len() == 0 {
        a
    } else if a[0] == b[0] {
        seq![a[0]] + merge_ids(a.drop_first(), b.drop_first())
    } else if text_lt(a[0], b[0]) {
        seq![a[0]] + merge_ids(a.drop_first(), b)
    } else {
        seq![b[0]] + merge_ids(a, b.drop_first())
    }
}

pub open spec fn message_ids(ms: Seq<ParsedMessage>) -> Seq<Seq<char>> {
    ms.map_values(|m: ParsedMessage| m.id@)
}

pub open spec fn term_ids(ts: Seq<ParsedTerm>) -> Seq<Seq<char>> {
    ts.map_values(|t: ParsedTerm| t.id@)
}

/// The nodes of a locale's dependency graph: its message and term ids.
pub open spec fn node_names(l: ParsedLocale) -> Seq<Seq<char>> {
    merge_ids(message_ids(l.messages@), term_ids(l.terms@))
}

/// Index of the first occurrence of `x`, or -1.
pub open spec fn name_index(ns: Seq<Seq<char>>, x: Seq<char>) -> int
    decreases ns.len(),
{
    if ns.len() == 0 {
        -1
    } else if ns[0] == x {
        0
    } else {
        let r = name_index(ns.drop_first(), x);
        if r < 0 {
            -1
        } else {
            r + 1
        }
    }
}

/// The nodes named by references to entries that exist (`terms` chooses
/// whether the references are to terms or to messages).
pub open spec fn ref_nodes(l: ParsedLocale, ns: Seq<Seq<char>>, refs: Seq<ReferenceSpan>, terms: bool) -> Seq<usize>
    decreases refs.len(),
{
    if refs.len() == 0 {
        Seq::empty()
    } else {
        let r = refs.last();
        let exists = if terms {
            term_index(l.terms@, r.name@) >= 0
        } else {
            message_index(l.messages@, r.name@) >= 0
        };
        ref_nodes(l, ns, refs.drop_last(), terms) + if exists {
            seq![name_index(ns, r.name@) as usize]
        } else {
            Seq::<usize>::empty()
        }
    }
}

/// The edges out of the node named `x`: to the terms, then to the messages,
/// that its entry references (a term's entry wins over a message of the same id).
pub open spec fn node_edges(l: ParsedLocale, ns: Seq<Seq<char>>, x: Seq<char>) -> Seq<usize> {
    let ti = term_index(l.terms@, x);
    if ti >= 0 {
        let t = l.terms@[ti];
        ref_nodes(l, ns, t.term_references@, true) + ref_nodes(l, ns, t.message_references@, false)
    } else {
        let mi = message_index(l.messages@, x);
        let m = l.messages@[mi];
        ref_nodes(l, ns, m.term_references@, true) + ref_nodes(l, ns, m.message_references@, false)
    }
}

/// The dependency graph of a locale over `node_names`.
pub open spec fn locale_graph(l: ParsedLocale) -> Seq<Seq<usize>> {
    let ns = node_names(l);
    Seq::new(ns.len(), |k: int| node_edges(l, ns, ns[k]))
}

proof fn lemma_name_index(ns: Seq<Seq<char>>, x: Seq<char>)
    ensures
        -1 <= name_index(ns, x) < ns.len(),
        name_index(ns, x) >= 0 ==> ns[name_index(ns, x)] == x,
        name_index(ns, x) < 0 ==> !ns.contains(x),
        name_index(ns, x) >= 0 ==> forall|k: int| 0 <= k < name_index(ns, x) ==> #[trigger] ns[k] != x,
    decreases ns.len(),
{
    if ns.len() > 0 && ns[0] != x {
        lemma_name_index(ns.drop_first(), x);
        assert forall|k: int| 1 <= k < ns.len() implies ns[k] == ns.drop_first()[k - 1] by {}
        if name_index(ns, x) < 0 && ns.contains(x) {
            let k = choose|k: int| 0 <= k < ns.len() && ns[k] == x;
            assert(ns.drop_first()[k - 1] == x);
        }
    }
}

proof fn lemma_merge_contains(a: Seq<Seq<char>>, b: Seq<Seq<char>>, x: Seq<char>)
    requires
        a.contains(x) || b.contains(x),
    ensures
        merge_ids(a, b).contains(x),
    decreases a.len() + b.len(),
{
    let m = merge_ids(a, b);
    if a.len() == 0 || b.len() == 0 {
    } else if a[0] == x || b[0] == x {
        if a[0] == b[0] || text_lt(a[0], b[0]) {
            if a[0] == x {
                assert(m[0] == x);
            } else {
                if a[0] == b[0] {
                    assert(m[0] == x);
                } else {
                    lemma_merge_contains(a.drop_first(), b, x);
                    let r = merge_ids(a.drop_first(), b);
                    let k = choose|k: int| 0 <= k < r.len() && r[k] == x;
                    assert(m[k + 1] == x);
                }
            }
        } else {
            if b[0] == x {
                assert(m[0] == x);
            } else {
                lemma_merge_contains(a, b.drop_first(), x);
                let r = merge_ids(a, b.drop_first());
                let k = choose|k: int| 0 <= k < r.len() && r[k] == x;
                assert(m[k + 1] == x);
            }
        }
    } else {
        if a.contains(x) {
            let k = choose|k: int| 0 <= k < a.len() && a[k] == x;
            assert(a.drop_first()[k - 1] == x);
        } else {
            let k = choose|k: int| 0 <= k < b.len() && b[k] == x;
            assert(b.drop_first()[k - 1] == x);
        }
        let (a1, b1) = if a[0] == b[0] {
            (a.drop_first(), b.drop_first())
        } else if text_lt(a[0], b[0]) {
            (a.drop_first(), b)
        } else {
            (a, b.drop_first())
        };
        assert(a1.contains(x) || b1.contains(x));
        lemma_merge_contains(a1, b1, x);
        let r = merge_ids(a1, b1);
        let k = choose|k: int| 0 <= k < r.len() && r[k] == x;
        assert(m[k + 1] == x);
    }
}


proof fn lemma_merge_from(a: Seq<Seq<char>>, b: Seq<Seq<char>>, k: int)
    requires
        0 <= k < merge_ids(a, b).len(),
    ensures
        a.contains(merge_ids(a, b)[k]) || b.contains(merge_ids(a, b)[k]),
    decreases a.len() + b.len(),
{
    let m = merge_ids(a, b);
    if a.len() == 0 || b.len() == 0 {
    } else if k == 0 {
        assert(m[0] == a[0] || m[0] == b[0]);
    } else {
        let (a1, b1) = if a[0] == b[0] {
            (a.drop_first(), b.drop_first())
        } else if text_lt(a[0], b[0]) {
            (a.drop_first(), b)
        } else {
            (a, b.drop_first())
        };
        assert(m[k] == merge_ids(a1, b1)[k - 1]);
        lemma_merge_from(a1, b1, k - 1);
        let x = m[k];
        if a1.contains(x) {
            let j = choose|j: int| 0 <= j < a1.len() && a1[j] == x;
            if a1.len() < a.len() {
                assert(a[j + 1] == x);
            }
        } else {
            let j = choose|j: int| 0 <= j < b1.len() && b1[j] == x;
            if b1.len() < b.len() {
                assert(b[j + 1] == x);
            }
        }
    }
}

proof fn lemma_term_in_nodes(l: ParsedLocale, x: Seq<char>)
    requires
        term_index(l.terms@, x) >= 0,
    ensures
        0 <= name_index(node_names(l), x) < node_names(l).len(),
        node_names(l)[name_index(node_names(l), x)] == x,
{
    crate::ast_util::lemma_term_index_pub(l.terms@, x);
    let ti = term_index(l.terms@, x);
    assert(term_ids(l.terms@)[ti] == x);
    lemma_merge_contains(message_ids(l.messages@), term_ids(l.terms@), x);
    lemma_name_index(node_names(l), x);
}

proof fn lemma_message_in_nodes(l: ParsedLocale, x: Seq<char>)
    requires
        message_index(l.messages@, x) >= 0,
    ensures
        0 <= name_index(node_names(l), x) < node_names(l).len(),
        node_names(l)[name_index(node_names(l), x)] == x,
{
    crate::ast_util::lemma_message_index_pub(l.messages@, x);
    let mi = message_index(l.messages@, x);
    assert(message_ids(l.messages@)[mi] == x);
    lemma_merge_contains(message_ids(l.messages@), term_ids(l.terms@), x);
    lemma_name_index(node_names(l), x);
}

/// A node that is not a term is a message.
proof fn lemma_node_is_entry(l: ParsedLocale, k: int)
    requires
        0 <= k < node_names(l).len(),
    ensures
        term_index(l.terms@, node_names(l)[k]) >= 0 || message_index(l.messages@, node_names(l)[k]) >= 0,
{
    let x = node_names(l)[k];
    lemma_merge_from(message_ids(l.messages@), term_ids(l.terms@), k);
    crate::ast_util::lemma_term_index_pub(l.terms@, x);
    crate::ast_util::lemma_message_index_pub(l.messages@, x);
    if message_ids(l.messages@).contains(x) {
        let j = choose|j: int| 0 <= j < message_ids(l.messages@).len() && message_ids(l.messages@)[j] == x;
        assert(l.messages@[j].id@ == x);
    } else {
        let j = choose|j: int| 0 <= j < term_ids(l.terms@).len() && term_ids(l.terms@)[j] == x;
        assert(l.terms@[j].id@ == x);
    }
}

/// The node names of a locale.
fn merged_node_names(l: &ParsedLocale) -> (ns: Vec<String>)
    ensures
        ns.deep_view() == node_names(*l),
{
    let ghost a = message_ids(l.messages@);
    let ghost b = term_ids(l.terms@);
    let mut ns: Vec<String> = Vec::new();
    let mut i: usize = 0;
    let mut j: usize = 0;
    assert(a.skip(0) =~= a);
    assert(b.skip(0) =~= b);
    while i < l.messages.len() || j < l.terms.len()
        invariant
            a == message_ids(l.messages@),
            b == term_ids(l.terms@),
            i <= l.messages.len(),
            j <= l.terms.len(),
            ns.deep_view() + merge_ids(a.skip(i as int), b.skip(j as int)) == merge_ids(a, b),
        decreases l.messages.len() + l.terms.len() - i - j,
    {
        let ghost sa = a.skip(i as int);
        let ghost sb = b.skip(j as int);
        if i == l.messages.len() {
            assert(sa.len() == 0);
            assert(sb[0] == l.terms@[j as int].id@);
            crate::validator::push_copy(&mut ns, &l.terms[j].id);
            assert(sb.drop_first() =~= b.skip(j as int + 1));
            assert(merge_ids(sa, sb) == sb);
            assert(merge_ids(sa, b.skip(j as int + 1)) == b.skip(j as int + 1));
            j = j + 1;
        } else if j == l.terms.len() {
            assert(sb.len() == 0);
            assert(sa[0] == l.messages@[i as int].id@);
            crate::validator::push_copy(&mut ns, &l.messages[i].id);
            assert(sa.drop_first() =~= a.skip(i as int + 1));
            i = i + 1;
        } else {
            let x = &l.messages[i].id;
            let y = &l.terms[j].id;
            assert(sa[0] == x@);
            assert(sb[0] == y@);
            assert(sa.drop_first() =~= a.skip(i as int + 1));
            assert(sb.drop_first() =~= b.skip(j as int + 1));
            if text_eq(x.as_str(), y.as_str()) {
                crate::validator::push_copy(&mut ns, x);
                i = i + 1;
                j = j + 1;
            } else if text_less(x.as_str(), y.as_str()) {
                crate::validator::push_copy(&mut ns, x);
                i = i + 1;
            } else {
                crate::validator::push_copy(&mut ns, y);
                j = j + 1;
            }
        }
        assert(ns.deep_view() + merge_ids(a.skip(i as int), b.skip(j as int)) =~= merge_ids(a, b));
    }
    assert(a.skip(i as int).len() == 0);
    assert(b.skip(j as int).len() == 0);
    assert(ns.deep_view() =~= merge_ids(a, b));
    ns
}

/// Appends a copy of `x`.
fn push_copy(v: &mut Vec<String>, x: &String)
    ensures
        final(v).deep_view() == old(v).deep_view().push(x@),
{
    push_error(v, copy_string(x));
}

/// Position of the first `x` in `ns`.
fn name_position(ns: &Vec<String>, x: &str) -> (k: usize)
    requires
        name_index(ns.deep_view(), x@) >= 0,
    ensures
        k as int == name_index(ns.deep_view(), x@),
{
    proof {
        lemma_name_index(ns.deep_view(), x@);
    }
    let ghost ni = name_index(ns.deep_view(), x@);
    let mut k: usize = 0;
    while k < ns.len()
        invariant
            k <= ns.len(),
            ni == name_index(ns.deep_view(), x@),
            0 <= ni < ns.len(),
            ns.deep_view()[ni] == x@,
            forall|t: int| 0 <= t < ni ==> #[trigger] ns.deep_view()[t] != x@,
            forall|t: int| 0 <= t < k ==> #[trigger] ns.deep_view()[t] != x@,
        decreases ns.len() - k,
    {
        assert(ns.deep_view()[k as int] == ns@[k as int]@);
        if text_eq(ns[k].as_str(), x) {
            proof {
                if (k as int) < ni {
                    assert(ns.deep_view()[k as int] != x@);
                }
            }
            return k;
        }
        k = k + 1;
    }
    assert(ns.deep_view()[ni] != x@);
    0
}

fn push_ref_nodes(
    out: &mut Vec<usize>,
    l: &ParsedLocale,
    ns: &Vec<String>,
    refs: &Vec<ReferenceSpan>,
    terms: bool,
)
    requires
        ns.deep_view() == node_names(*l),
    ensures
        final(out)@ == old(out)@ + ref_nodes(*l, ns.deep_view(), refs@, terms),
        forall|t: int| 0 <= t < ref_nodes(*l, ns.deep_view(), refs@, terms).len()
            ==> #[trigger] ref_nodes(*l, ns.deep_view(), refs@, terms)[t] < ns.len(),
{
    let ghost start = out@;
    let ghost nsv = ns.deep_view();
    let mut i: usize = 0;
    while i < refs.len()
        invariant
            i <= refs.len(),
            nsv == ns.deep_view(),
            nsv == node_names(*l),
            out@ == start + ref_nodes(*l, nsv, refs@.take(i as int), terms),
            forall|t: int| 0 <= t < ref_nodes(*l, nsv, refs@.take(i as int), terms).len()
                ==> #[trigger] ref_nodes(*l, nsv, refs@.take(i as int), terms)[t] < ns.len(),
        decreases refs.len() - i,
    {
        let r = &refs[i];
        let ghost prev = ref_nodes(*l, nsv, refs@.take(i as int), terms);
        assert(refs@.take(i as int + 1).drop_last() =~= refs@.take(i as int));
        let exists = if terms {
            match find_term(&l.terms, r.name.as_str()) {
                Some(_) => true,
                None => false,
            }
        } else {
            match find_message(&l.messages, r.name.as_str()) {
                Some(_) => true,
                None => false,
            }
        };
        if exists {
            proof {
                if terms {
                    lemma_term_in_nodes(*l, r.name@);
                } else {
                    lemma_message_in_nodes(*l, r.name@);
                }
            }
            let k = name_position(ns, r.name.as_str());
            out.push(k);
        }
        i = i + 1;
        let ghost now = ref_nodes(*l, nsv, refs@.take(i as int), terms);
        assert(out@ =~= start + now);
        assert forall|t: int| 0 <= t < now.len() implies #[trigger] now[t] < ns.len() by {
            if t < prev.len() {
                assert(now[t] == prev[t]);
            }
        }
    }
    assert(refs@.take(refs.len() as int) =~= refs@);
}

/// The dependency graph of a locale over the given node names.
fn build_graph(l: &ParsedLocale, ns: &Vec<String>) -> (g: Vec<Vec<usize>>)
    requires
        ns.deep_view() == node_names(*l),
    ensures
        g.deep_view() == locale_graph(*l),
        crate::cycles::graph_wf(g.deep_view()),
{
    let ghost nsv = ns.deep_view();
    let mut g: Vec<Vec<usize>> = Vec::new();
    let mut k: usize = 0;
    while k < ns.len()
        invariant
            k <= ns.len(),
            nsv == ns.deep_view(),
            nsv == node_names(*l),
            g.len() == k,
            forall|t: int| 0 <= t < k ==> #[trigger] g.deep_view()[t] == node_edges(*l, nsv, nsv[t]),
            forall|t: int, u: int| 0 <= t < k && 0 <= u < g.deep_view()[t].len() ==> #[trigger] g.deep_view()[t][u] < ns.len(),
        decreases ns.len() - k,
    {
        let x = ns[k].as_str();
        assert(nsv[k as int] == x@);
        proof {
            lemma_node_is_entry(*l, k as int);
        }
        let mut e: Vec<usize> = Vec::new();
        match find_term(&l.terms, x) {
            Some(ti) => {
                push_ref_nodes(&mut e, l, ns, &l.terms[ti].term_references, true);
                push_ref_nodes(&mut e, l, ns, &l.terms[ti].message_references, false);
            },
            None => {
                match find_message(&l.messages, x) {
                    Some(mi) => {
                        push_ref_nodes(&mut e, l, ns, &l.messages[mi].term_references, true);
                        push_ref_nodes(&mut e, l, ns, &l.messages[mi].message_references, false);
                    },
                    None => {
                        assert(false);
                    },
                }
            },
        }
        assert(e@ == node_edges(*l, nsv, nsv[k as int]));
        let ghost before = g@;
        let ghost bd = g.deep_view();
        let ghost ev = e@;
        g.push(e);
        assert forall|t: int| 0 <= t < k + 1 implies #[trigger] g.deep_view()[t] == node_edges(*l, nsv, nsv[t]) by {
            if t < k {
                assert(g@[t] == before[t]);
                assert(bd[t] == before[t]@);
            } else {
                assert(g@[t]@ == ev);
            }
        }
        k = k + 1;
        assert forall|t: int, u: int| 0 <= t < k && 0 <= u < g.deep_view()[t].len() implies #[trigger] g.deep_view()[t][u] < ns.len() by {
            if t < k - 1 {
                assert(g.deep_view()[t] == bd[t]);
            }
        }
    }
    assert(g.deep_view() =~= locale_graph(*l));
    g
}

/// Every message and term fits the machine-word arithmetic of the reports:
/// its first line plus the length of its definition, and every file's length.
pub open spec fn locale_fits(l: ParsedLocale) -> bool {
    &&& forall|i: int| #![trigger l.messages@[i]] 0 <= i < l.messages@.len()
        ==> l.messages@[i].line + l.messages@[i].raw_definition@.len() + 1 < usize::MAX
    &&& forall|i: int| #![trigger l.terms@[i]] 0 <= i < l.terms@.len()
        ==> l.terms@[i].line + l.terms@[i].raw_definition@.len() + 1 < usize::MAX
    &&& forall|i: int| #![trigger l.file_contents@[i]] 0 <= i < l.file_contents@.len()
        ==> l.file_contents@[i].content@.len() < usize::MAX
}

/// What a cycle report shows of the entry with id `x`: the term if there is
/// one, else the message, else nothing.
pub open spec fn node_entry(l: ParsedLocale, x: Seq<char>) -> Option<EntryView> {
    let ti = term_index(l.terms@, x);
    let mi = message_index(l.messages@, x);
    if ti >= 0 {
        Some((l.terms@[ti].file_path@, l.terms@[ti].line, l.terms@[ti].raw_definition@))
    } else if mi >= 0 {
        Some((l.messages@[mi].file_path@, l.messages@[mi].line, l.messages@[mi].raw_definition@))
    } else {
        None
    }
}

/// The entries named along a cycle, each id taken at its first occurrence.
pub open spec fn cycle_entries(l: ParsedLocale, names: Seq<Seq<char>>) -> Seq<EntryView>
    decreases names.len(),
{
    if names.len() == 0 {
        Seq::empty()
    } else {
        let prev = cycle_entries(l, names.drop_last());
        let x = names.last();
        if names.drop_last().contains(x) {
            prev
        } else {
            match node_entry(l, x) {
                Some(e) => prev.push(e),
                None => prev,
            }
        }
    }
}

/// The ids along a cycle of node indices, back to the first.
pub open spec fn cycle_names(ns: Seq<Seq<char>>, c: Seq<usize>) -> Seq<Seq<char>> {
    crate::cycles::closed(c).map_values(|i: usize| ns[i as int])
}

/// The report of the cycle `c` (node indices) of a locale.
pub open spec fn cycle_report(loc: Seq<char>, l: ParsedLocale, c: Seq<usize>) -> Seq<char> {
    let names = cycle_names(node_names(l), c);
    spec_format_cycle_error(loc, names, cycle_entries(l, names))
}

/// `reports` holds one report for each elementary cycle of the locale's
/// dependency graph, each cycle once, in the order the depth-first search
/// finds them.
pub open spec fn valid_cycle_reports(loc: Seq<char>, l: ParsedLocale, reports: Seq<Seq<char>>) -> bool {
    exists|cyc: Seq<Seq<usize>>| #[trigger] cycles_reported(loc, l, cyc, reports)
}

pub open spec fn cycles_reported(loc: Seq<char>, l: ParsedLocale, cyc: Seq<Seq<usize>>, reports: Seq<Seq<char>>) -> bool {
    let g = locale_graph(l);
    &&& cyc == crate::cycles::found_cycles(g)
    &&& cyc.len() == reports.len()
    &&& cyc.no_duplicates()
    &&& forall|k: int| 0 <= k < cyc.len() ==> crate::cycles::is_canonical_cycle(g, #[trigger] cyc[k])
    &&& forall|k: int| 0 <= k < cyc.len() ==> #[trigger] reports[k] == cycle_report(loc, l, cyc[k])
    &&& forall|c: Seq<usize>| #[trigger] crate::cycles::is_canonical_cycle(g, c) ==> cyc.contains(c)
}

/// The entries along a displayed (closed) cycle.
fn collect_cycle_entries(l: &ParsedLocale, ns: &Vec<String>, closed_cycle: &Vec<usize>) -> (r: (Vec<String>, Vec<CycleEntryInfo>))
    requires
        forall|t: int| 0 <= t < closed_cycle.len() ==> #[trigger] closed_cycle@[t] < ns.len(),
        locale_fits(*l),
    ensures
        r.0.deep_view() == closed_cycle@.map_values(|i: usize| ns.deep_view()[i as int]),
        r.1@.map_values(|e: CycleEntryInfo| entry_view(e)) == cycle_entries(*l, r.0.deep_view()),
        entries_fit(r.1@.map_values(|e: CycleEntryInfo| entry_view(e))),
{
    let ghost nsv = ns.deep_view();
    let mut names: Vec<String> = Vec::new();
    let mut entries: Vec<CycleEntryInfo> = Vec::new();
    let mut i: usize = 0;
    while i < closed_cycle.len()
        invariant
            i <= closed_cycle.len(),
            nsv == ns.deep_view(),
            locale_fits(*l),
            forall|t: int| 0 <= t < closed_cycle.len() ==> #[trigger] closed_cycle@[t] < ns.len(),
            names.deep_view() == closed_cycle@.take(i as int).map_values(|k: usize| nsv[k as int]),
            entries@.map_values(|e: CycleEntryInfo| entry_view(e)) == cycle_entries(*l, names.deep_view()),
            entries_fit(entries@.map_values(|e: CycleEntryInfo| entry_view(e))),
        decreases closed_cycle.len() - i,
    {
        let k = closed_cycle[i];
        let x = &ns[k];
        assert(nsv[k as int] == x@);
        let ghost old_names = names.deep_view();
        let ghost old_entries = entries@;
        let seen = contains_text(&names, x.as_str());
        push_copy(&mut names, x);
        assert(names.deep_view() =~= closed_cycle@.take(i as int + 1).map_values(|k: usize| nsv[k as int]));
        assert(names.deep_view().drop_last() =~= old_names);
        if !seen {
            proof {
                crate::ast_util::lemma_term_index_pub(l.terms@, x@);
                crate::ast_util::lemma_message_index_pub(l.messages@, x@);
            }
            match find_term(&l.terms, x.as_str()) {
                Some(ti) => {
                    let t = &l.terms[ti];
                    assert(l.terms@[ti as int] == *t);
                    let e = CycleEntryInfo {
                        file_path: copy_string(&t.file_path),
                        start_line: t.line,
                        raw_definition: copy_string(&t.raw_definition),
                    };
                    entries.push(e);
                },
                None => {
                    match find_message(&l.messages, x.as_str()) {
                        Some(mi) => {
                            let m = &l.messages[mi];
                            assert(l.messages@[mi as int] == *m);
                            let e = CycleEntryInfo {
                                file_path: copy_string(&m.file_path),
                                start_line: m.line,
                                raw_definition: copy_string(&m.raw_definition),
                            };
                            entries.push(e);
                        },
                        None => {},
                    }
                },
            }
        }
        assert(entries@.map_values(|e: CycleEntryInfo| entry_view(e)) =~= cycle_entries(*l, names.deep_view())) by {
            if !seen {
                if entries@.len() > old_entries.len() {
                    assert(entries@ == old_entries.push(entries@.last()));
                }
            } else {
                assert(entries@ == old_entries);
            }
        }
        i = i + 1;
    }
    assert(closed_cycle@.take(closed_cycle.len() as int) =~= closed_cycle@);
    (names, entries)
}

/// Appends one report per circular dependency of the locale.
fn push_cycle_errors(errors: &mut Vec<String>, locale_id: &str, l: &ParsedLocale)
    requires
        locale_fits(*l),
    ensures
        exists|reports: Seq<Seq<char>>| #![trigger valid_cycle_reports(locale_id@, *l, reports)]
            valid_cycle_reports(locale_id@, *l, reports) && final(errors).deep_view() == old(errors).deep_view() + reports,
{
    let ns = merged_node_names(l);
    let g = build_graph(l, &ns);
    let cycles = crate::cycles::detect_cycles(&g);
    let ghost gv = g.deep_view();
    let ghost cd = cycles.deep_view();
    let ghost start = errors.deep_view();
    let ghost cyc = cd.map_values(|c: Seq<usize>| c.drop_last());
    let mut k: usize = 0;
    while k < cycles.len()
        invariant
            k <= cycles.len(),
            gv == g.deep_view(),
            gv == locale_graph(*l),
            cd == cycles.deep_view(),
            ns.deep_view() == node_names(*l),
            crate::cycles::graph_wf(gv),
            locale_fits(*l),
            forall|j: int| 0 <= j < cycles.len() ==> {
                let c = #[trigger] cycles.deep_view()[j];
                &&& c.len() >= 2
                &&& c == crate::cycles::closed(c.drop_last())
                &&& crate::cycles::is_canonical_cycle(gv, c.drop_last())
            },
            errors.deep_view() == start + Seq::new(k as nat, |j: int| cycle_report(locale_id@, *l, cyc[j])),
            cyc == cd.map_values(|c: Seq<usize>| c.drop_last()),
        decreases cycles.len() - k,
    {
        let c = &cycles[k];
        assert(cd[k as int] == c@);
        let ghost cc = c@.drop_last();
        assert(crate::cycles::is_canonical_cycle(gv, cc));
        assert forall|t: int| 0 <= t < c.len() implies #[trigger] c@[t] < ns.len() by {
            if t < cc.len() {
                assert(c@[t] == cc[t]);
            } else {
                assert(c@[t] == cc[0]);
            }
        }
        let (names, entries) = collect_cycle_entries(l, &ns, c);
        assert(names.deep_view() == cycle_names(node_names(*l), cc));
        let e = format_cycle_error(locale_id, &names, &entries);
        assert(cyc[k as int] == cc);
        assert(e@ == cycle_report(locale_id@, *l, cc));
        push_error(errors, e);
        k = k + 1;
        assert(errors.deep_view() =~= start + Seq::new(k as nat, |j: int| cycle_report(locale_id@, *l, cyc[j])));
    }
    let ghost reports = Seq::new(cycles.len() as nat, |j: int| cycle_report(locale_id@, *l, cyc[j]));
    proof {
        let g2 = locale_graph(*l);
        assert(cyc.no_duplicates()) by {
            assert forall|a: int, b: int| 0 <= a < cyc.len() && 0 <= b < cyc.len() && a != b implies cyc[a] != cyc[b] by {
                assert(cd[a] == crate::cycles::closed(cd[a].drop_last()));
                assert(cd[b] == crate::cycles::closed(cd[b].drop_last()));
                assert(cd[a] != cd[b]);
            }
        }
        assert forall|c: Seq<usize>| #[trigger] crate::cycles::is_canonical_cycle(g2, c) implies cyc.contains(c) by {
            assert(cd.contains(crate::cycles::closed(c)));
            let j = choose|j: int| 0 <= j < cd.len() && cd[j] == crate::cycles::closed(c);
            assert(crate::cycles::closed(c).drop_last() =~= c);
            assert(cyc[j] == c);
        }
        let fc = crate::cycles::found_cycles(g2);
        assert(cd == fc.map_values(|c: Seq<usize>| crate::cycles::closed(c)));
        assert forall|j: int| 0 <= j < cyc.len() implies cyc[j] == fc[j] by {
            assert(cd[j] == crate::cycles::closed(fc[j]));
            assert(crate::cycles::closed(fc[j]).drop_last() =~= fc[j]);
        }
        assert(cyc =~= fc);
        assert(cycles_reported(locale_id@, *l, cyc, reports));
        assert(valid_cycle_reports(locale_id@, *l, reports));
        assert(errors.deep_view() == start + reports);
    }
}

/// Errors for references to messages that the locale does not define.
pub open spec fn missing_message_errors(
    path: Seq<char>,
    content: Seq<char>,
    refs: Seq<ReferenceSpan>,
    ctx: Seq<char>,
    loc: Seq<char>,
    msgs: Seq<ParsedMessage>,
) -> Seq<Seq<char>>
    decreases refs.len(),
{
    if refs.len() == 0 {
        Seq::empty()
    } else {
        let r = refs.last();
        missing_message_errors(path, content, refs.drop_last(), ctx, loc, msgs) + if message_index(msgs, r.name@) >= 0 {
            Seq::<Seq<char>>::empty()
        } else {
            seq![spec_format_span_error(path, content, r.start as int, r.end as int,
                "Missing dependency"@ + ctx, "Message '"@ + r.name@ + "' is not defined in locale '"@ + loc + "'"@)]
        }
    }
}

/// Errors of one message: its calls, then its references to missing messages.
#[verifier::opaque]
pub open spec fn message_errors(l: ParsedLocale, loc: Seq<char>, m: ParsedMessage, customs: Seq<CustomFunction>) -> Seq<Seq<char>> {
    let content = content_of(l.file_contents@, m.file_path@);
    spec_validate_calls("message"@, m.id@, m.file_path@, content, m.term_references@, m.function_references@, loc, l.terms@, customs)
        + missing_message_errors(m.file_path@, content, m.message_references@, spec_ctx("message"@, m.id@, loc), loc, l.messages@)
}

/// Errors of one term: its calls, then its references to missing messages.
#[verifier::opaque]
pub open spec fn term_errors(l: ParsedLocale, loc: Seq<char>, t: ParsedTerm, customs: Seq<CustomFunction>) -> Seq<Seq<char>> {
    let content = content_of(l.file_contents@, t.file_path@);
    spec_validate_calls("term"@, t.id@, t.file_path@, content, t.term_references@, t.function_references@, loc, l.terms@, customs)
        + missing_message_errors(t.file_path@, content, t.message_references@, spec_ctx("term"@, t.id@, loc), loc, l.messages@)
}

pub open spec fn messages_errors(l: ParsedLocale, loc: Seq<char>, ms: Seq<ParsedMessage>, customs: Seq<CustomFunction>) -> Seq<Seq<char>>
    decreases ms.len(),
{
    if ms.len() == 0 {
        Seq::empty()
    } else {
        messages_errors(l, loc, ms.drop_last(), customs) + message_errors(l, loc, ms.last(), customs)
    }
}

pub open spec fn terms_errors(l: ParsedLocale, loc: Seq<char>, ts: Seq<ParsedTerm>, customs: Seq<CustomFunction>) -> Seq<Seq<char>>
    decreases ts.len(),
{
    if ts.len() == 0 {
        Seq::empty()
    } else {
        terms_errors(l, loc, ts.drop_last(), customs) + term_errors(l, loc, ts.last(), customs)
    }
}

/// Errors of the entries of one locale, messages first, in order.
pub open spec fn entry_errors(l: ParsedLocale, loc: Seq<char>, customs: Seq<CustomFunction>) -> Seq<Seq<char>> {
    messages_errors(l, loc, l.messages@, customs) + terms_errors(l, loc, l.terms@, customs)
}

proof fn lemma_content_fits(files: Seq<FileContent>, path: Seq<char>)
    requires
        forall|i: int| #![trigger files[i]] 0 <= i < files.len() ==> files[i].content@.len() < usize::MAX,
    ensures
        content_of(files, path).len() < usize::MAX,
    decreases files.len(),
{
    if files.len() > 0 && files[0].path@ != path {
        assert forall|i: int| #![trigger files.drop_first()[i]] 0 <= i < files.drop_first().len() implies files.drop_first()[i].content@.len() < usize::MAX by {
            assert(files.drop_first()[i] == files[i + 1]);
        }
        lemma_content_fits(files.drop_first(), path);
    }
}

fn push_missing_message_errors(
    errors: &mut Vec<String>,
    path: &str,
    content: &str,
    refs: &Vec<ReferenceSpan>,
    kind: &str,
    id: &str,
    loc: &str,
    msgs: &Vec<ParsedMessage>,
)
    requires
        content@.len() < usize::MAX,
    ensures
        final(errors).deep_view() == old(errors).deep_view() + missing_message_errors(
            path@, content@, refs@, spec_ctx(kind@, id@, loc@), loc@, msgs@),
{
    let ghost start = errors.deep_view();
    let ghost ctx = spec_ctx(kind@, id@, loc@);
    let mut i: usize = 0;
    while i < refs.len()
        invariant
            i <= refs.len(),
            content@.len() < usize::MAX,
            ctx == spec_ctx(kind@, id@, loc@),
            errors.deep_view() == start + missing_message_errors(path@, content@, refs@.take(i as int), ctx, loc@, msgs@),
        decreases refs.len() - i,
    {
        let r = &refs[i];
        assert(refs@.take(i as int + 1).drop_last() =~= refs@.take(i as int));
        match find_message(msgs, r.name.as_str()) {
            Some(_) => {},
            None => {
                let mut h = String::new();
                h.append("Missing dependency");
                push_ctx(&mut h, kind, id, loc);
                let mut lbl = String::new();
                lbl.append("Message '");
                lbl.append(r.name.as_str());
                lbl.append("' is not defined in locale '");
                lbl.append(loc);
                lbl.append("'");
                let e = format_span_error(path, content, r.start, r.end, h.as_str(), lbl.as_str());
                push_error(errors, e);
            },
        }
        i = i + 1;
        assert(errors.deep_view() =~= start + missing_message_errors(path@, content@, refs@.take(i as int), ctx, loc@, msgs@));
    }
    assert(refs@.take(refs.len() as int) =~= refs@);
}

fn push_one_message_errors(errors: &mut Vec<String>, locale_id: &str, l: &ParsedLocale, m: &ParsedMessage, customs: &Vec<CustomFunction>)
    requires
        locale_fits(*l),
    ensures
        final(errors).deep_view() == old(errors).deep_view() + message_errors(*l, locale_id@, *m, customs@),
{
    let ghost start = errors.deep_view();
    let content = file_content(&l.file_contents, m.file_path.as_str());
    proof {
        lemma_content_fits(l.file_contents@, m.file_path@);
    }
    validate_calls("message", m.id.as_str(), m.file_path.as_str(), content, &m.term_references,
        &m.function_references, locale_id, l, customs, errors);
    push_missing_message_errors(errors, m.file_path.as_str(), content, &m.message_references, "message",
        m.id.as_str(), locale_id, &l.messages);
    assert(errors.deep_view() =~= start + message_errors(*l, locale_id@, *m, customs@)) by {
        reveal(message_errors);
    }
}

fn push_one_term_errors(errors: &mut Vec<String>, locale_id: &str, l: &ParsedLocale, t: &ParsedTerm, customs: &Vec<CustomFunction>)
    requires
        locale_fits(*l),
    ensures
        final(errors).deep_view() == old(errors).deep_view() + term_errors(*l, locale_id@, *t, customs@),
{
    let ghost start = errors.deep_view();
    let content = file_content(&l.file_contents, t.file_path.as_str());
    proof {
        lemma_content_fits(l.file_contents@, t.file_path@);
    }
    validate_calls("term", t.id.as_str(), t.file_path.as_str(), content, &t.term_references,
        &t.function_references, locale_id, l, customs, errors);
    push_missing_message_errors(errors, t.file_path.as_str(), content, &t.message_references, "term",
        t.id.as_str(), locale_id, &l.messages);
    assert(errors.deep_view() =~= start + term_errors(*l, locale_id@, *t, customs@)) by {
        reveal(term_errors);
    }
}

/// Appends the errors of the entries of one locale.
fn push_entry_errors(errors: &mut Vec<String>, locale_id: &str, l: &ParsedLocale, customs: &Vec<CustomFunction>)
    requires
        locale_fits(*l),
    ensures
        final(errors).deep_view() == old(errors).deep_view() + entry_errors(*l, locale_id@, customs@),
{
    let ghost start = errors.deep_view();
    let mut i: usize = 0;
    while i < l.messages.len()
        invariant
            i <= l.messages.len(),
            locale_fits(*l),
            errors.deep_view() == start + messages_errors(*l, locale_id@, l.messages@.take(i as int), customs@),
        decreases l.messages.len() - i,
    {
        assert(l.messages@.take(i as int + 1).drop_last() =~= l.messages@.take(i as int));
        assert(l.messages@.take(i as int + 1).last() == l.messages@[i as int]);
        push_one_message_errors(errors, locale_id, l, &l.messages[i], customs);
        i = i + 1;
        assert(errors.deep_view() =~= start + messages_errors(*l, locale_id@, l.messages@.take(i as int), customs@));
    }
    assert(l.messages@.take(l.messages.len() as int) =~= l.messages@);
    let ghost mid = errors.deep_view();
    let mut i: usize = 0;
    while i < l.terms.len()
        invariant
            i <= l.terms.len(),
            locale_fits(*l),
            errors.deep_view() == mid + terms_errors(*l, locale_id@, l.terms@.take(i as int), customs@),
        decreases l.terms.len() - i,
    {
        assert(l.terms@.take(i as int + 1).drop_last() =~= l.terms@.take(i as int));
        assert(l.terms@.take(i as int + 1).last() == l.terms@[i as int]);
        push_one_term_errors(errors, locale_id, l, &l.terms[i], customs);
        i = i + 1;
        assert(errors.deep_view() =~= mid + terms_errors(*l, locale_id@, l.terms@.take(i as int), customs@));
    }
    assert(l.terms@.take(l.terms.len() as int) =~= l.terms@);
    assert(errors.deep_view() =~= start + entry_errors(*l, locale_id@, customs@));
}

/// A locale and its id.
pub struct LocaleEntry {
    pub id: String,
    pub locale: ParsedLocale,
}

/// Index of the first locale with the given id, or -1.
pub open spec fn locale_index(ls: Seq<LocaleEntry>, id: Seq<char>) -> int
    decreases ls.len(),
{
    if ls.len() == 0 {
        -1
    } else if ls[0].id@ == id {
        0
    } else {
        let r = locale_index(ls.drop_first(), id);
        if r < 0 {
            -1
        } else {
            r + 1
        }
    }
}

proof fn lemma_locale_index(ls: Seq<LocaleEntry>, id: Seq<char>)
    ensures
        -1 <= locale_index(ls, id) < ls.len(),
        locale_index(ls, id) >= 0 ==> ls[locale_index(ls, id)].id@ == id,
        locale_index(ls, id) < 0 ==> forall|k: int| 0 <= k < ls.len() ==> #[trigger] ls[k].id@ != id,
        locale_index(ls, id) >= 0 ==> forall|k: int| 0 <= k < locale_index(ls, id) ==> #[trigger] ls[k].id@ != id,
    decreases ls.len(),
{
    if ls.len() > 0 && ls[0].id@ != id {
        lemma_locale_index(ls.drop_first(), id);
        assert forall|k: int| 1 <= k < ls.len() implies ls[k] == ls.drop_first()[k - 1] by {}
    }
}

/// Position of the locale with the given id.
fn find_locale(ls: &Vec<LocaleEntry>, id: &str) -> (r: Option<usize>)
    ensures
        match r {
            Some(i) => i as int == locale_index(ls@, id@) && (i as int) < ls@.len(),
            None => locale_index(ls@, id@) == -1,
        },
{
    proof {
        lemma_locale_index(ls@, id@);
    }
    let mut i: usize = 0;
    while i < ls.len()
        invariant
            i <= ls.len(),
            forall|k: int| 0 <= k < i ==> #[trigger] ls@[k].id@ != id@,
            -1 <= locale_index(ls@, id@) < ls@.len(),
            locale_index(ls@, id@) < 0 ==> forall|k: int| 0 <= k < ls@.len() ==> #[trigger] ls@[k].id@ != id@,
            locale_index(ls@, id@) >= 0 ==> ls@[locale_index(ls@, id@)].id@ == id@,
            locale_index(ls@, id@) >= 0 ==> forall|k: int| 0 <= k < locale_index(ls@, id@) ==> #[trigger] ls@[k].id@ != id@,
        decreases ls.len() - i,
    {
        if text_eq(ls[i].id.as_str(), id) {
            proof {
                let li = locale_index(ls@, id@);
                assert(ls@[i as int].id@ == id@);
                if li >= 0 && li < i {
                    assert(ls@[li].id@ != id@);
                }
            }
            return Some(i);
        }
        i = i + 1;
    }
    None
}

/// The ids of the locales.
pub open spec fn locale_ids(ls: Seq<LocaleEntry>) -> Seq<Seq<char>> {
    ls.map_values(|e: LocaleEntry| e.id@)
}

/// The error when the default locale is not among the locales.
pub open spec fn default_missing_error(did: Seq<char>, ls: Seq<LocaleEntry>) -> Seq<char> {
    "Default locale '"@ + did + "' not found in locales directory. Available locales: ["@ + join(locale_ids(ls), ", "@) + "]"@
}

/// Variables written with their `$` sigil.
pub open spec fn dollar_vars(vs: Seq<Seq<char>>) -> Seq<Seq<char>> {
    vs.map_values(|v: Seq<char>| "$"@ + v)
}

/// The warning for a message of the default locale that a locale lacks.
pub open spec fn missing_translation_warning(loc: Seq<char>, key: Seq<char>, did: Seq<char>) -> Seq<char> {
    "Locale '"@ + loc + "' is missing translation for key '"@ + key + "' (defined in default locale '"@ + did
        + "'). At runtime this key will fall back to '"@ + did + "'."@
}

/// The error for a translation whose variables differ from the default locale's.
pub open spec fn mismatch_error(loc: Seq<char>, dm: ParsedMessage, om: ParsedMessage) -> Seq<char> {
    "Mismatched Fluent variables in message '"@ + dm.id@ + "' for locale '"@ + loc + "'\n"@
        + spec_format_snippet_and_notes(om.file_path@, om.line as nat, om.raw_definition@,
            dollar_vars(dm.variables.deep_view()), dollar_vars(om.variables.deep_view()))
}

/// The warning for a message that the default locale lacks.
pub open spec fn extra_key_warning(loc: Seq<char>, m: ParsedMessage, did: Seq<char>) -> Seq<char> {
    "Locale '"@ + loc + "' contains key '"@ + m.id@ + "' at "@ + m.file_path@ + ":"@ + decimal(m.line as nat)
        + " which does not exist in default locale '"@ + did + "'. This key will be ignored."@
}

/// Whether a translation uses the same set of variables as the default message.
pub open spec fn same_variables(a: ParsedMessage, b: ParsedMessage) -> bool {
    a.variables.deep_view().to_set() == b.variables.deep_view().to_set()
}

/// Errors for the default messages `dms` whose translation in `l` differs in variables.
pub open spec fn compare_errors(loc: Seq<char>, l: ParsedLocale, dms: Seq<ParsedMessage>) -> Seq<Seq<char>>
    decreases dms.len(),
{
    if dms.len() == 0 {
        Seq::empty()
    } else {
        let dm = dms.last();
        let mi = message_index(l.messages@, dm.id@);
        compare_errors(loc, l, dms.drop_last()) + if mi >= 0 && !same_variables(dm, l.messages@[mi]) {
            seq![mismatch_error(loc, dm, l.messages@[mi])]
        } else {
            Seq::<Seq<char>>::empty()
        }
    }
}

/// Warnings for the default messages `dms` that `l` does not translate.
pub open spec fn compare_warnings(loc: Seq<char>, l: ParsedLocale, did: Seq<char>, dms: Seq<ParsedMessage>) -> Seq<Seq<char>>
    decreases dms.len(),
{
    if dms.len() == 0 {
        Seq::empty()
    } else {
        let dm = dms.last();
        compare_warnings(loc, l, did, dms.drop_last()) + if message_index(l.messages@, dm.id@) < 0 {
            seq![missing_translation_warning(loc, dm.id@, did)]
        } else {
            Seq::<Seq<char>>::empty()
        }
    }
}

/// Warnings for the messages `ms` that the default locale `dl` lacks.
pub open spec fn extra_warnings(loc: Seq<char>, dl: ParsedLocale, did: Seq<char>, ms: Seq<ParsedMessage>) -> Seq<Seq<char>>
    decreases ms.len(),
{
    if ms.len() == 0 {
        Seq::empty()
    } else {
        let m = ms.last();
        extra_warnings(loc, dl, did, ms.drop_last()) + if message_index(dl.messages@, m.id@) < 0 {
            seq![extra_key_warning(loc, m, did)]
        } else {
            Seq::<Seq<char>>::empty()
        }
    }
}

/// Errors of the first pass: for each locale, its entries' errors and then
/// its cycle reports (`reports[i]` for locale `i`).
pub open spec fn first_pass_errors(ls: Seq<LocaleEntry>, reports: Seq<Seq<Seq<char>>>, customs: Seq<CustomFunction>) -> Seq<Seq<char>>
    decreases ls.len(),
{
    if ls.len() == 0 {
        Seq::empty()
    } else {
        first_pass_errors(ls.drop_last(), reports.drop_last(), customs)
            + entry_errors(ls.last().locale, ls.last().id@, customs) + reports.last()
    }
}

/// Errors of the second pass: variable mismatches of each other locale against the default `dl`.
pub open spec fn second_pass_errors(ls: Seq<LocaleEntry>, did: Seq<char>, dl: ParsedLocale) -> Seq<Seq<char>>
    decreases ls.len(),
{
    if ls.len() == 0 {
        Seq::empty()
    } else {
        let e = ls.last();
        second_pass_errors(ls.drop_last(), did, dl) + if e.id@ == did {
            Seq::<Seq<char>>::empty()
        } else {
            compare_errors(e.id@, e.locale, dl.messages@)
        }
    }
}

/// The warnings: for each other locale, its missing translations and then its extra keys.
pub open spec fn all_warnings(ls: Seq<LocaleEntry>, did: Seq<char>, dl: ParsedLocale) -> Seq<Seq<char>>
    decreases ls.len(),
{
    if ls.len() == 0 {
        Seq::empty()
    } else {
        let e = ls.last();
        all_warnings(ls.drop_last(), did, dl) + if e.id@ == did {
            Seq::<Seq<char>>::empty()
        } else {
            compare_warnings(e.id@, e.locale, did, dl.messages@) + extra_warnings(e.id@, dl, did, e.locale.messages@)
        }
    }
}

/// Whether two lists of variables hold the same set.
fn same_variable_sets(a: &Vec<String>, b: &Vec<String>) -> (r: bool)
    ensures
        r == (a.deep_view().to_set() == b.deep_view().to_set()),
{
    let mut i: usize = 0;
    while i < a.len()
        invariant
            i <= a.len(),
            forall|k: int| 0 <= k < i ==> b.deep_view().contains(#[trigger] a.deep_view()[k]),
        decreases a.len() - i,
    {
        assert(a.deep_view()[i as int] == a@[i as int]@);
        if !contains_text(b, a[i].as_str()) {
            assert(a.deep_view().to_set().contains(a.deep_view()[i as int]));
            assert(!b.deep_view().to_set().contains(a.deep_view()[i as int]));
            return false;
        }
        i = i + 1;
    }
    let mut j: usize = 0;
    while j < b.len()
        invariant
            j <= b.len(),
            forall|k: int| 0 <= k < a.len() ==> b.deep_view().contains(#[trigger] a.deep_view()[k]),
            forall|k: int| 0 <= k < j ==> a.deep_view().contains(#[trigger] b.deep_view()[k]),
        decreases b.len() - j,
    {
        assert(b.deep_view()[j as int] == b@[j as int]@);
        if !contains_text(a, b[j].as_str()) {
            assert(b.deep_view().to_set().contains(b.deep_view()[j as int]));
            assert(!a.deep_view().to_set().contains(b.deep_view()[j as int]));
            return false;
        }
        j = j + 1;
    }
    assert(a.deep_view().to_set() =~= b.deep_view().to_set()) by {
        assert forall|x: Seq<char>| a.deep_view().to_set().contains(x) implies b.deep_view().to_set().contains(x) by {
            let k = choose|k: int| 0 <= k < a.deep_view().len() && a.deep_view()[k] == x;
        }
        assert forall|x: Seq<char>| b.deep_view().to_set().contains(x) implies a.deep_view().to_set().contains(x) by {
            let k = choose|k: int| 0 <= k < b.deep_view().len() && b.deep_view()[k] == x;
        }
    }
    true
}

/// The variables with a `$` before each.
fn dollar_list(vs: &Vec<String>) -> (r: Vec<String>)
    ensures
        r.deep_view() == dollar_vars(vs.deep_view()),
{
    let mut r: Vec<String> = Vec::new();
    let mut i: usize = 0;
    while i < vs.len()
        invariant
            i <= vs.len(),
            r.deep_view() == dollar_vars(vs.deep_view().take(i as int)),
        decreases vs.len() - i,
    {
        let mut d = String::new();
        d.append("$");
        d.append(vs[i].as_str());
        assert(vs.deep_view()[i as int] == vs@[i as int]@);
        push_error(&mut r, d);
        i = i + 1;
        assert(r.deep_view() =~= dollar_vars(vs.deep_view().take(i as int)));
    }
    assert(vs.deep_view().take(vs.len() as int) =~= vs.deep_view());
    r
}

/// Compares a locale with the default one: appends mismatch errors and
/// missing-translation warnings, then extra-key warnings.
fn compare_with_default(
    errors: &mut Vec<String>,
    warnings: &mut Vec<String>,
    loc: &str,
    l: &ParsedLocale,
    did: &str,
    dl: &ParsedLocale,
)
    requires
        locale_fits(*l),
    ensures
        final(errors).deep_view() == old(errors).deep_view() + compare_errors(loc@, *l, dl.messages@),
        final(warnings).deep_view() == old(warnings).deep_view() + compare_warnings(loc@, *l, did@, dl.messages@)
            + extra_warnings(loc@, *dl, did@, l.messages@),
{
    let ghost e0 = errors.deep_view();
    let ghost w0 = warnings.deep_view();
    let mut i: usize = 0;
    while i < dl.messages.len()
        invariant
            i <= dl.messages.len(),
            locale_fits(*l),
            errors.deep_view() == e0 + compare_errors(loc@, *l, dl.messages@.take(i as int)),
            warnings.deep_view() == w0 + compare_warnings(loc@, *l, did@, dl.messages@.take(i as int)),
        decreases dl.messages.len() - i,
    {
        let dm = &dl.messages[i];
        assert(dl.messages@.take(i as int + 1).drop_last() =~= dl.messages@.take(i as int));
        assert(dl.messages@.take(i as int + 1).last() == *dm);
        match find_message(&l.messages, dm.id.as_str()) {
            None => {
                let mut w = String::new();
                w.append("Locale '");
                w.append(loc);
                w.append("' is missing translation for key '");
                w.append(dm.id.as_str());
                w.append("' (defined in default locale '");
                w.append(did);
                w.append("'). At runtime this key will fall back to '");
                w.append(did);
                w.append("'.");
                push_error(warnings, w);
            },
            Some(mi) => {
                let om = &l.messages[mi];
                assert(l.messages@[mi as int] == *om);
                if !same_variable_sets(&dm.variables, &om.variables) {
                    let expected = dollar_list(&dm.variables);
                    let found = dollar_list(&om.variables);
                    assert(om.line + om.raw_definition@.len() + 1 < usize::MAX);
                    let details = format_snippet_and_notes(om.file_path.as_str(), om.line, om.raw_definition.as_str(), &expected, &found);
                    let mut e = String::new();
                    e.append("Mismatched Fluent variables in message '");
                    e.append(dm.id.as_str());
                    e.append("' for locale '");
                    e.append(loc);
                    e.append("'\n");
                    e.append(details.as_str());
                    push_error(errors, e);
                }
            },
        }
        i = i + 1;
        assert(errors.deep_view() =~= e0 + compare_errors(loc@, *l, dl.messages@.take(i as int)));
        assert(warnings.deep_view() =~= w0 + compare_warnings(loc@, *l, did@, dl.messages@.take(i as int)));
    }
    assert(dl.messages@.take(dl.messages.len() as int) =~= dl.messages@);
    let ghost w1 = warnings.deep_view();
    let mut i: usize = 0;
    while i < l.messages.len()
        invariant
            i <= l.messages.len(),
            warnings.deep_view() == w1 + extra_warnings(loc@, *dl, did@, l.messages@.take(i as int)),
        decreases l.messages.len() - i,
    {
        let m = &l.messages[i];
        assert(l.messages@.take(i as int + 1).drop_last() =~= l.messages@.take(i as int));
        assert(l.messages@.take(i as int + 1).last() == *m);
        match find_message(&dl.messages, m.id.as_str()) {
            Some(_) => {},
            None => {
                let mut w = String::new();
                w.append("Locale '");
                w.append(loc);
                w.append("' contains key '");
                w.append(m.id.as_str());
                w.append("' at ");
                w.append(m.file_path.as_str());
                w.append(":");
                w.append(decimal_string(m.line as u128).as_str());
                w.append(" which does not exist in default locale '");
                w.append(did);
                w.append("'. This key will be ignored.");
                push_error(warnings, w);
            },
        }
        i = i + 1;
        assert(warnings.deep_view() =~= w1 + extra_warnings(loc@, *dl, did@, l.messages@.take(i as int)));
    }
    assert(l.messages@.take(l.messages.len() as int) =~= l.messages@);
}

/// Every locale fits the machine-word arithmetic of the reports.
pub open spec fn locales_fit(ls: Seq<LocaleEntry>) -> bool {
    forall|i: int| #![trigger ls[i]] 0 <= i < ls.len() ==> locale_fits(ls[i].locale)
}

/// The outcome of validation described by its parts: the error lists of the
/// two passes and the warnings.
pub open spec fn validation_outcome(
    r: Result<Vec<String>, Vec<String>>,
    errors: Seq<Seq<char>>,
    warnings: Seq<Seq<char>>,
) -> bool {
    match r {
        Ok(w) => errors.len() == 0 && w.deep_view() == warnings,
        Err(e) => errors.len() > 0 && e.deep_view() == errors,
    }
}

/// Checks all locales: the calls and references of every entry, circular
/// dependencies, and, against the default locale, variables that differ
/// (errors) and translations missing or extra (warnings). Returns the warnings
/// when there is no error, else every error.
pub fn validate_locales(
    locales: &Vec<LocaleEntry>,
    default_locale_id: &str,
    custom_functions: &Vec<CustomFunction>,
) -> (r: Result<Vec<String>, Vec<String>>)
    requires
        locales_fit(locales@),
    ensures
        locale_index(locales@, default_locale_id@) < 0 ==> match r {
            Err(e) => e.deep_view() == seq![default_missing_error(default_locale_id@, locales@)],
            Ok(_) => false,
        },
        locale_index(locales@, default_locale_id@) >= 0 ==> exists|reports: Seq<Seq<Seq<char>>>| {
            &&& reports.len() == locales@.len()
            &&& forall|i: int| #![trigger reports[i]] 0 <= i < reports.len()
                ==> valid_cycle_reports(locales@[i].id@, locales@[i].locale, reports[i])
            &&& validation_outcome(
                r,
                first_pass_errors(locales@, reports, custom_functions@)
                    + second_pass_errors(locales@, default_locale_id@, locales@[locale_index(locales@, default_locale_id@)].locale),
                all_warnings(locales@, default_locale_id@, locales@[locale_index(locales@, default_locale_id@)].locale),
            )
        },
{
    let ghost ls = locales@;
    proof {
        lemma_locale_index(ls, default_locale_id@);
    }
    let found_di = find_locale(locales, default_locale_id);
    let found = found_di.is_some();
    if !found {
        let mut ids: Vec<String> = Vec::new();
        let mut k: usize = 0;
        while k < locales.len()
            invariant
                k <= locales.len(),
                ls == locales@,
                ids.deep_view() == locale_ids(ls).take(k as int),
            decreases locales.len() - k,
        {
            push_copy(&mut ids, &locales[k].id);
            k = k + 1;
            assert(ids.deep_view() =~= locale_ids(ls).take(k as int));
        }
        assert(locale_ids(ls).take(locales.len() as int) =~= locale_ids(ls));
        let mut e = String::new();
        e.append("Default locale '");
        e.append(default_locale_id);
        e.append("' not found in locales directory. Available locales: [");
        push_joined(&mut e, &ids, ", ");
        e.append("]");
        let mut errs: Vec<String> = Vec::new();
        push_error(&mut errs, e);
        return Err(errs);
    }
    let di = match found_di {
        Some(d) => d,
        None => 0,
    };
    assert(di as int == locale_index(ls, default_locale_id@));
    let dl = &locales[di].locale;
    let mut errors: Vec<String> = Vec::new();
    let mut warnings: Vec<String> = Vec::new();
    let ghost mut reports: Seq<Seq<Seq<char>>> = Seq::empty();
    let mut i: usize = 0;
    assert(errors.deep_view() =~= Seq::<Seq<char>>::empty());
    while i < locales.len()
        invariant
            i <= locales.len(),
            ls == locales@,
            locales_fit(ls),
            reports.len() == i,
            forall|j: int| #![trigger reports[j]] 0 <= j < i ==> valid_cycle_reports(ls[j].id@, ls[j].locale, reports[j]),
            errors.deep_view() == first_pass_errors(ls.take(i as int), reports, custom_functions@),
        decreases locales.len() - i,
    {
        let e = &locales[i];
        assert(locale_fits(ls[i as int].locale));
        assert(ls.take(i as int + 1).drop_last() =~= ls.take(i as int));
        push_entry_errors(&mut errors, e.id.as_str(), &e.locale, custom_functions);
        let ghost mid = errors.deep_view();
        push_cycle_errors(&mut errors, e.id.as_str(), &e.locale);
        proof {
            let rep = choose|rep: Seq<Seq<char>>| valid_cycle_reports(e.id@, e.locale, rep) && errors.deep_view() == mid + rep;
            let old_reports = reports;
            reports = reports.push(rep);
            assert(reports.drop_last() =~= old_reports);
            assert forall|j: int| #![trigger reports[j]] 0 <= j < i + 1 implies valid_cycle_reports(ls[j].id@, ls[j].locale, reports[j]) by {
                if j < i {
                    assert(reports[j] == old_reports[j]);
                }
            }
        }
        i = i + 1;
        assert(errors.deep_view() =~= first_pass_errors(ls.take(i as int), reports, custom_functions@));
    }
    assert(ls.take(locales.len() as int) =~= ls);
    let ghost first = errors.deep_view();
    let mut i: usize = 0;
    while i < locales.len()
        invariant
            i <= locales.len(),
            ls == locales@,
            locales_fit(ls),
            errors.deep_view() == first + second_pass_errors(ls.take(i as int), default_locale_id@, *dl),
            warnings.deep_view() == all_warnings(ls.take(i as int), default_locale_id@, *dl),
        decreases locales.len() - i,
    {
        let e = &locales[i];
        assert(locale_fits(ls[i as int].locale));
        assert(ls.take(i as int + 1).drop_last() =~= ls.take(i as int));
        if !text_eq(e.id.as_str(), default_locale_id) {
            compare_with_default(&mut errors, &mut warnings, e.id.as_str(), &e.locale, default_locale_id, dl);
        }
        i = i + 1;
        assert(errors.deep_view() =~= first + second_pass_errors(ls.take(i as int), default_locale_id@, *dl));
        assert(warnings.deep_view() =~= all_warnings(ls.take(i as int), default_locale_id@, *dl));
    }
    assert(ls.take(locales.len() as int) =~= ls);
    if errors.len() > 0 {
        assert(validation_outcome(Err(errors), first + second_pass_errors(ls, default_locale_id@, *dl), all_warnings(ls, default_locale_id@, *dl)));
        return Err(errors);
    }
    assert(validation_outcome(Ok(warnings), first + second_pass_errors(ls, default_locale_id@, *dl), all_warnings(ls, default_locale_id@, *dl)));
    Ok(warnings)
}


proof fn lemma_contains_after_concat(a: Seq<Seq<char>>, b: Seq<Seq<char>>, x: Seq<char>)
    ensures
        a.contains(x) ==> (a + b).contains(x),
        b.contains(x) ==> (a + b).contains(x),
{
    if a.contains(x) {
        let i = choose|i: int| 0 <= i < a.len() && a[i] == x;
        assert((a + b)[i] == x);
    }
    if b.contains(x) {
        let i = choose|i: int| 0 <= i < b.len() && b[i] == x;
        assert((a + b)[a.len() + i] == x);
    }
}

proof fn lemma_compare_warnings_contains(loc: Seq<char>, l: ParsedLocale, did: Seq<char>, dms: Seq<ParsedMessage>, k: int)
    requires
        0 <= k < dms.len(),
        message_index(l.messages@, dms[k].id@) < 0,
    ensures
        compare_warnings(loc, l, did, dms).contains(missing_translation_warning(loc, dms[k].id@, did)),
    decreases dms.len(),
{
    let x = missing_translation_warning(loc, dms[k].id@, did);
    let init = dms.drop_last();
    if k == dms.len() - 1 {
        lemma_contains_after_concat(compare_warnings(loc, l, did, init), seq![x], x);
        assert(seq![x][0] == x);
    } else {
        assert(init[k] == dms[k]);
        lemma_compare_warnings_contains(loc, l, did, init, k);
        let tail = if message_index(l.messages@, dms.last().id@) < 0 {
            seq![missing_translation_warning(loc, dms.last().id@, did)]
        } else {
            Seq::<Seq<char>>::empty()
        };
        lemma_contains_after_concat(compare_warnings(loc, l, did, init), tail, x);
    }
}

/// A message of the default locale that another locale does not translate is
/// warned about: it falls back to the default locale.
pub proof fn law_missing_translation_warned(ls: Seq<LocaleEntry>, did: Seq<char>, dl: ParsedLocale, i: int, k: int)
    requires
        0 <= i < ls.len(),
        ls[i].id@ != did,
        0 <= k < dl.messages@.len(),
        message_index(ls[i].locale.messages@, dl.messages@[k].id@) < 0,
    ensures
        all_warnings(ls, did, dl).contains(missing_translation_warning(ls[i].id@, dl.messages@[k].id@, did)),
    decreases ls.len(),
{
    let x = missing_translation_warning(ls[i].id@, dl.messages@[k].id@, did);
    let init = ls.drop_last();
    let e = ls.last();
    let tail = if e.id@ == did {
        Seq::<Seq<char>>::empty()
    } else {
        compare_warnings(e.id@, e.locale, did, dl.messages@) + extra_warnings(e.id@, dl, did, e.locale.messages@)
    };
    if i == ls.len() - 1 {
        lemma_compare_warnings_contains(e.id@, e.locale, did, dl.messages@, k);
        lemma_contains_after_concat(compare_warnings(e.id@, e.locale, did, dl.messages@), extra_warnings(e.id@, dl, did, e.locale.messages@), x);
        lemma_contains_after_concat(all_warnings(init, did, dl), tail, x);
    } else {
        assert(init[i] == ls[i]);
        law_missing_translation_warned(init, did, dl, i, k);
        lemma_contains_after_concat(all_warnings(init, did, dl), tail, x);
    }
}

proof fn lemma_compare_errors_contains(loc: Seq<char>, l: ParsedLocale, dms: Seq<ParsedMessage>, k: int)
    requires
        0 <= k < dms.len(),
        message_index(l.messages@, dms[k].id@) >= 0,
        !same_variables(dms[k], l.messages@[message_index(l.messages@, dms[k].id@)]),
    ensures
        compare_errors(loc, l, dms).contains(mismatch_error(loc, dms[k], l.messages@[message_index(l.messages@, dms[k].id@)])),
    decreases dms.len(),
{
    let x = mismatch_error(loc, dms[k], l.messages@[message_index(l.messages@, dms[k].id@)]);
    let init = dms.drop_last();
    let dm = dms.last();
    let mi = message_index(l.messages@, dm.id@);
    let tail = if mi >= 0 && !same_variables(dm, l.messages@[mi]) {
        seq![mismatch_error(loc, dm, l.messages@[mi])]
    } else {
        Seq::<Seq<char>>::empty()
    };
    if k == dms.len() - 1 {
        assert(tail[0] == x);
        lemma_contains_after_concat(compare_errors(loc, l, init), tail, x);
    } else {
        assert(init[k] == dms[k]);
        lemma_compare_errors_contains(loc, l, init, k);
        lemma_contains_after_concat(compare_errors(loc, l, init), tail, x);
    }
}

/// A translation whose variables differ from those of the default message is
/// reported as a mismatch.
pub proof fn law_mismatch_reported(ls: Seq<LocaleEntry>, did: Seq<char>, dl: ParsedLocale, i: int, k: int)
    requires
        0 <= i < ls.len(),
        ls[i].id@ != did,
        0 <= k < dl.messages@.len(),
        message_index(ls[i].locale.messages@, dl.messages@[k].id@) >= 0,
        !same_variables(dl.messages@[k], ls[i].locale.messages@[message_index(ls[i].locale.messages@, dl.messages@[k].id@)]),
    ensures
        second_pass_errors(ls, did, dl).contains(mismatch_error(ls[i].id@, dl.messages@[k],
            ls[i].locale.messages@[message_index(ls[i].locale.messages@, dl.messages@[k].id@)])),
    decreases ls.len(),
{
    let l = ls[i].locale;
    let x = mismatch_error(ls[i].id@, dl.messages@[k], l.messages@[message_index(l.messages@, dl.messages@[k].id@)]);
    let init = ls.drop_last();
    let e = ls.last();
    let tail = if e.id@ == did { Seq::<Seq<char>>::empty() } else { compare_errors(e.id@, e.locale, dl.messages@) };
    if i == ls.len() - 1 {
        lemma_compare_errors_contains(e.id@, e.locale, dl.messages@, k);
        lemma_contains_after_concat(second_pass_errors(init, did, dl), tail, x);
    } else {
        assert(init[i] == ls[i]);
        law_mismatch_reported(init, did, dl, i, k);
        lemma_contains_after_concat(second_pass_errors(init, did, dl), tail, x);
    }
}


/// A call is well formed: it calls a custom function with as many positional
/// arguments as that function has parameters, `NUMBER` or `DATETIME` with
/// one, or `VOID`.
pub open spec fn call_ok(r: ReferenceSpan, customs: Seq<CustomFunction>) -> bool {
    let ci = custom_index(customs, r.name@);
    if ci >= 0 {
        r.positional_count == customs[ci].param_count
    } else {
        r.name@ == "VOID"@ || ((r.name@ == "NUMBER"@ || r.name@ == "DATETIME"@) && r.positional_count == 1)
    }
}

proof fn lemma_function_refs_ok(path: Seq<char>, content: Seq<char>, rs: Seq<ReferenceSpan>, ctx: Seq<char>, customs: Seq<CustomFunction>, j: int)
    requires
        function_refs_errors(path, content, rs, ctx, customs).len() == 0,
        0 <= j < rs.len(),
    ensures
        call_ok(rs[j], customs),
    decreases rs.len(),
{
    let init = rs.drop_last();
    if j < rs.len() - 1 {
        assert(init[j] == rs[j]);
        lemma_function_refs_ok(path, content, init, ctx, customs, j);
    } else {
        let r = rs.last();
        let ci = custom_index(customs, r.name@);
        assert(function_ref_errors(path, content, r, ctx, customs).len() == 0);
        if ci >= 0 {
            if r.positional_count != customs[ci].param_count {
                assert(function_ref_errors(path, content, r, ctx, customs).len() > 0);
            }
        } else if r.name@ != "VOID"@ && (r.name@ == "NUMBER"@ || r.name@ == "DATETIME"@) {
            if r.positional_count != 1 {
                assert(function_ref_errors(path, content, r, ctx, customs).len() > 0);
            }
        }
    }
}

proof fn lemma_messages_errors_empty(l: ParsedLocale, loc: Seq<char>, ms: Seq<ParsedMessage>, customs: Seq<CustomFunction>, k: int)
    requires
        messages_errors(l, loc, ms, customs).len() == 0,
        0 <= k < ms.len(),
    ensures
        message_errors(l, loc, ms[k], customs).len() == 0,
    decreases ms.len(),
{
    if k < ms.len() - 1 {
        assert(ms.drop_last()[k] == ms[k]);
        lemma_messages_errors_empty(l, loc, ms.drop_last(), customs, k);
    }
}

proof fn lemma_first_pass_empty(ls: Seq<LocaleEntry>, reports: Seq<Seq<Seq<char>>>, customs: Seq<CustomFunction>, i: int)
    requires
        first_pass_errors(ls, reports, customs).len() == 0,
        0 <= i < ls.len(),
    ensures
        entry_errors(ls[i].locale, ls[i].id@, customs).len() == 0,
    decreases ls.len(),
{
    if i < ls.len() - 1 {
        assert(ls.drop_last()[i] == ls[i]);
        lemma_first_pass_empty(ls.drop_last(), reports.drop_last(), customs, i);
    }
}

/// Calls are checked: when checking the entries finds no error, every function
/// that a message calls is a custom function given as many positional
/// arguments as it has parameters, `NUMBER` or `DATETIME` given one, or `VOID`.
pub proof fn law_calls_checked(ls: Seq<LocaleEntry>, reports: Seq<Seq<Seq<char>>>, customs: Seq<CustomFunction>, i: int, k: int, j: int)
    requires
        first_pass_errors(ls, reports, customs).len() == 0,
        0 <= i < ls.len(),
        0 <= k < ls[i].locale.messages@.len(),
        0 <= j < ls[i].locale.messages@[k].function_references@.len(),
    ensures
        call_ok(ls[i].locale.messages@[k].function_references@[j], customs),
{
    let l = ls[i].locale;
    let loc = ls[i].id@;
    let m = l.messages@[k];
    lemma_first_pass_empty(ls, reports, customs, i);
    lemma_messages_errors_empty(l, loc, l.messages@, customs, k);
    reveal(message_errors);
    let content = content_of(l.file_contents@, m.file_path@);
    let ctx = spec_ctx("message"@, m.id@, loc);
    assert(function_refs_errors(m.file_path@, content, m.function_references@, ctx, customs).len() == 0);
    lemma_function_refs_ok(m.file_path@, content, m.function_references@, ctx, customs, j);
}

/// The node of the entry with id `x` in the dependency graph of `l`.
pub open spec fn node_of(l: ParsedLocale, x: Seq<char>) -> int {
    name_index(node_names(l), x)
}

proof fn lemma_ref_nodes_contains(l: ParsedLocale, ns: Seq<Seq<char>>, refs: Seq<ReferenceSpan>, terms: bool, j: int)
    requires
        0 <= j < refs.len(),
        terms ==> term_index(l.terms@, refs[j].name@) >= 0,
        !terms ==> message_index(l.messages@, refs[j].name@) >= 0,
    ensures
        ref_nodes(l, ns, refs, terms).contains(name_index(ns, refs[j].name@) as usize),
    decreases refs.len(),
{
    let d = refs.drop_last();
    let prev = ref_nodes(l, ns, d, terms);
    let now = ref_nodes(l, ns, refs, terms);
    if j < refs.len() - 1 {
        assert(d[j] == refs[j]);
        lemma_ref_nodes_contains(l, ns, d, terms, j);
        let k = choose|k: int| 0 <= k < prev.len() && prev[k] == name_index(ns, refs[j].name@) as usize;
        assert(now[k] == prev[k]);
    } else {
        assert(now[prev.len() as int] == name_index(ns, refs[j].name@) as usize);
    }
}

proof fn lemma_concat_has(a: Seq<usize>, b: Seq<usize>, x: usize)
    requires
        a.contains(x) || b.contains(x),
    ensures
        (a + b).contains(x),
{
    if a.contains(x) {
        let k = choose|k: int| 0 <= k < a.len() && a[k] == x;
        assert((a + b)[k] == x);
    } else {
        let k = choose|k: int| 0 <= k < b.len() && b[k] == x;
        assert((a + b)[k + a.len()] == x);
    }
}

/// A message (with no term of the same id) depends on every existing message
/// and every existing term that it references: the dependency graph, in which
/// circular dependencies are searched, has an edge from its node to each of them.
/// (The nodes are the merged ids of messages and terms, in order.)
pub proof fn law_message_reference_edges(l: ParsedLocale, i: int)
    requires
        0 <= i < l.messages@.len(),
        message_index(l.messages@, l.messages@[i].id@) == i,
        term_index(l.terms@, l.messages@[i].id@) < 0,
    ensures
        node_names(l)[node_of(l, l.messages@[i].id@)] == l.messages@[i].id@,
        forall|j: int| 0 <= j < l.messages@[i].message_references@.len()
            && message_index(l.messages@, l.messages@[i].message_references@[j].name@) >= 0
            ==> locale_graph(l)[node_of(l, l.messages@[i].id@)].contains(#[trigger] node_of(l, l.messages@[i].message_references@[j].name@) as usize)
                && node_names(l)[node_of(l, l.messages@[i].message_references@[j].name@)] == l.messages@[i].message_references@[j].name@,
        forall|j: int| 0 <= j < l.messages@[i].term_references@.len()
            && term_index(l.terms@, l.messages@[i].term_references@[j].name@) >= 0
            ==> locale_graph(l)[node_of(l, l.messages@[i].id@)].contains(#[trigger] node_of(l, l.messages@[i].term_references@[j].name@) as usize)
                && node_names(l)[node_of(l, l.messages@[i].term_references@[j].name@)] == l.messages@[i].term_references@[j].name@,
{
    let m = l.messages@[i];
    let ns = node_names(l);
    lemma_message_in_nodes(l, m.id@);
    let a = name_index(ns, m.id@);
    let g = locale_graph(l);
    assert(g[a] == node_edges(l, ns, m.id@));
    let tr = ref_nodes(l, ns, m.term_references@, true);
    let mr = ref_nodes(l, ns, m.message_references@, false);
    assert(g[a] == tr + mr);
    assert forall|j: int| 0 <= j < m.message_references@.len()
        && message_index(l.messages@, m.message_references@[j].name@) >= 0
        implies g[node_of(l, m.id@)].contains(#[trigger] node_of(l, m.message_references@[j].name@) as usize)
            && ns[node_of(l, m.message_references@[j].name@)] == m.message_references@[j].name@ by {
        lemma_ref_nodes_contains(l, ns, m.message_references@, false, j);
        lemma_message_in_nodes(l, m.message_references@[j].name@);
        lemma_concat_has(tr, mr, node_of(l, m.message_references@[j].name@) as usize);
    }
    assert forall|j: int| 0 <= j < m.term_references@.len()
        && term_index(l.terms@, m.term_references@[j].name@) >= 0
        implies g[node_of(l, m.id@)].contains(#[trigger] node_of(l, m.term_references@[j].name@) as usize)
            && ns[node_of(l, m.term_references@[j].name@)] == m.term_references@[j].name@ by {
        lemma_ref_nodes_contains(l, ns, m.term_references@, true, j);
        lemma_term_in_nodes(l, m.term_references@[j].name@);
        lemma_concat_has(tr, mr, node_of(l, m.term_references@[j].name@) as usize);
    }
}

/// A term depends on every existing term and every existing message that it
/// references: the dependency graph has an edge from its node to each of them.
pub proof fn law_term_reference_edges(l: ParsedLocale, i: int)
    requires
        0 <= i < l.terms@.len(),
        term_index(l.terms@, l.terms@[i].id@) == i,
    ensures
        node_names(l)[node_of(l, l.terms@[i].id@)] == l.terms@[i].id@,
        forall|j: int| 0 <= j < l.terms@[i].message_references@.len()
            && message_index(l.messages@, l.terms@[i].message_references@[j].name@) >= 0
            ==> locale_graph(l)[node_of(l, l.terms@[i].id@)].contains(#[trigger] node_of(l, l.terms@[i].message_references@[j].name@) as usize)
                && node_names(l)[node_of(l, l.terms@[i].message_references@[j].name@)] == l.terms@[i].message_references@[j].name@,
        forall|j: int| 0 <= j < l.terms@[i].term_references@.len()
            && term_index(l.terms@, l.terms@[i].term_references@[j].name@) >= 0
            ==> locale_graph(l)[node_of(l, l.terms@[i].id@)].contains(#[trigger] node_of(l, l.terms@[i].term_references@[j].name@) as usize)
                && node_names(l)[node_of(l, l.terms@[i].term_references@[j].name@)] == l.terms@[i].term_references@[j].name@,
{
    let t = l.terms@[i];
    let ns = node_names(l);
    lemma_term_in_nodes(l, t.id@);
    let a = name_index(ns, t.id@);
    let g = locale_graph(l);
    assert(g[a] == node_edges(l, ns, t.id@));
    let tr = ref_nodes(l, ns, t.term_references@, true);
    let mr = ref_nodes(l, ns, t.message_references@, false);
    assert(g[a] == tr + mr);
    assert forall|j: int| 0 <= j < t.message_references@.len()
        && message_index(l.messages@, t.message_references@[j].name@) >= 0
        implies g[node_of(l, t.id@)].contains(#[trigger] node_of(l, t.message_references@[j].name@) as usize)
            && ns[node_of(l, t.message_references@[j].name@)] == t.message_references@[j].name@ by {
        lemma_ref_nodes_contains(l, ns, t.message_references@, false, j);
        lemma_message_in_nodes(l, t.message_references@[j].name@);
        lemma_concat_has(tr, mr, node_of(l, t.message_references@[j].name@) as usize);
    }
    assert forall|j: int| 0 <= j < t.term_references@.len()
        && term_index(l.terms@, t.term_references@[j].name@) >= 0
        implies g[node_of(l, t.id@)].contains(#[trigger] node_of(l, t.term_references@[j].name@) as usize)
            && ns[node_of(l, t.term_references@[j].name@)] == t.term_references@[j].name@ by {
        lemma_ref_nodes_contains(l, ns, t.term_references@, true, j);
        lemma_term_in_nodes(l, t.term_references@[j].name@);
        lemma_concat_has(tr, mr, node_of(l, t.term_references@[j].name@) as usize);
    }
}

/// The named options that `NUMBER` takes.
pub open spec fn number_option_names() -> Seq<Seq<char>> {
    seq![
        "currency"@,
        "currencyDisplay"@,
        "useGrouping"@,
        "minimumIntegerDigits"@,
        "minimumFractionDigits"@,
        "maximumFractionDigits"@,
        "minimumSignificantDigits"@,
        "maximumSignificantDigits"@,
        "style"@,
    ]
}

/// The named options that `DATETIME` takes.
pub open spec fn datetime_option_names() -> Seq<Seq<char>> {
    seq![
        "dateStyle"@,
        "timeStyle"@,
        "fractionalSecondDigits"@,
        "dayPeriod"@,
        "hour12"@,
        "weekday"@,
        "era"@,
        "year"@,
        "month"@,
        "day"@,
        "hour"@,
        "minute"@,
        "second"@,
        "timeZoneName"@,
    ]
}

proof fn lemma_number_option_names(n: Seq<char>)
    ensures
        number_option(n) <==> number_option_names().contains(n),
{
    let s = number_option_names();
    if s.contains(n) {
        let i = choose|i: int| 0 <= i < s.len() && s[i] == n;
        if i == 0 {
                assert(s[0] == "currency"@);
            } else if i == 1 {
                assert(s[1] == "currencyDisplay"@);
            } else if i == 2 {
                assert(s[2] == "useGrouping"@);
            } else if i == 3 {
                assert(s[3] == "minimumIntegerDigits"@);
            } else if i == 4 {
                assert(s[4] == "minimumFractionDigits"@);
            } else if i == 5 {
                assert(s[5] == "maximumFractionDigits"@);
            } else if i == 6 {
                assert(s[6] == "minimumSignificantDigits"@);
            } else if i == 7 {
                assert(s[7] == "maximumSignificantDigits"@);
            } else if i == 8 {
                assert(s[8] == "style"@);
            }
    }
    if number_option(n) {
        if n == "currency"@ { assert(s[0] == n); }
        if n == "currencyDisplay"@ { assert(s[1] == n); }
        if n == "useGrouping"@ { assert(s[2] == n); }
        if n == "minimumIntegerDigits"@ { assert(s[3] == n); }
        if n == "minimumFractionDigits"@ { assert(s[4] == n); }
        if n == "maximumFractionDigits"@ { assert(s[5] == n); }
        if n == "minimumSignificantDigits"@ { assert(s[6] == n); }
        if n == "maximumSignificantDigits"@ { assert(s[7] == n); }
        if n == "style"@ { assert(s[8] == n); }
    }
}

proof fn lemma_datetime_option_names(n: Seq<char>)
    ensures
        datetime_option(n) <==> datetime_option_names().contains(n),
{
    let s = datetime_option_names();
    if s.contains(n) {
        let i = choose|i: int| 0 <= i < s.len() && s[i] == n;
        if i == 0 {
                assert(s[0] == "dateStyle"@);
            } else if i == 1 {
                assert(s[1] == "timeStyle"@);
            } else if i == 2 {
                assert(s[2] == "fractionalSecondDigits"@);
            } else if i == 3 {
                assert(s[3] == "dayPeriod"@);
            } else if i == 4 {
                assert(s[4] == "hour12"@);
            } else if i == 5 {
                assert(s[5] == "weekday"@);
            } else if i == 6 {
                assert(s[6] == "era"@);
            } else if i == 7 {
                assert(s[7] == "year"@);
            } else if i == 8 {
                assert(s[8] == "month"@);
            } else if i == 9 {
                assert(s[9] == "day"@);
            } else if i == 10 {
                assert(s[10] == "hour"@);
            } else if i == 11 {
                assert(s[11] == "minute"@);
            } else if i == 12 {
                assert(s[12] == "second"@);
            } else if i == 13 {
                assert(s[13] == "timeZoneName"@);
            }
    }
    if datetime_option(n) {
        if n == "dateStyle"@ { assert(s[0] == n); }
        if n == "timeStyle"@ { assert(s[1] == n); }
        if n == "fractionalSecondDigits"@ { assert(s[2] == n); }
        if n == "dayPeriod"@ { assert(s[3] == n); }
        if n == "hour12"@ { assert(s[4] == n); }
        if n == "weekday"@ { assert(s[5] == n); }
        if n == "era"@ { assert(s[6] == n); }
        if n == "year"@ { assert(s[7] == n); }
        if n == "month"@ { assert(s[8] == n); }
        if n == "day"@ { assert(s[9] == n); }
        if n == "hour"@ { assert(s[10] == n); }
        if n == "minute"@ { assert(s[11] == n); }
        if n == "second"@ { assert(s[12] == n); }
        if n == "timeZoneName"@ { assert(s[13] == n); }
    }
}

proof fn lemma_option_errors_empty(path: Seq<char>, content: Seq<char>, named: Seq<NamedArgSpan>, f: Seq<char>, ctx: Seq<char>, mode: int)
    ensures
        option_errors(path, content, named, f, ctx, mode).len() == 0
            <==> forall|k: int| 0 <= k < named.len() ==> option_allowed(mode, #[trigger] named[k].name@),
    decreases named.len(),
{
    if named.len() > 0 {
        let d = named.drop_last();
        lemma_option_errors_empty(path, content, d, f, ctx, mode);
        if forall|k: int| 0 <= k < named.len() ==> option_allowed(mode, #[trigger] named[k].name@) {
            assert forall|k: int| 0 <= k < d.len() implies option_allowed(mode, #[trigger] d[k].name@) by {
                assert(d[k] == named[k]);
            }
            assert(option_allowed(mode, named[named.len() - 1].name@));
        }
        if option_errors(path, content, named, f, ctx, mode).len() == 0 {
            assert forall|k: int| 0 <= k < named.len() implies option_allowed(mode, #[trigger] named[k].name@) by {
                if k < named.len() - 1 {
                    assert(d[k] == named[k]);
                }
            }
        }
    }
}

/// A call of the built-in `NUMBER` or `DATETIME` (not shadowed by a custom
/// function) with its one positional argument is accepted exactly when each
/// of its named options is one of that function's own options: `NUMBER`'s
/// options for `NUMBER`, `DATETIME`'s for `DATETIME`.
pub proof fn law_builtin_options_checked(
    path: Seq<char>,
    content: Seq<char>,
    r: ReferenceSpan,
    ctx: Seq<char>,
    customs: Seq<CustomFunction>,
)
    requires
        custom_index(customs, r.name@) < 0,
        r.name@ == "NUMBER"@ || r.name@ == "DATETIME"@,
        r.positional_count == 1,
    ensures
        r.name@ == "NUMBER"@ ==> (function_ref_errors(path, content, r, ctx, customs).len() == 0
            <==> forall|k: int| 0 <= k < r.named_args@.len() ==> number_option_names().contains(#[trigger] r.named_args@[k].name@)),
        r.name@ == "DATETIME"@ ==> (function_ref_errors(path, content, r, ctx, customs).len() == 0
            <==> forall|k: int| 0 <= k < r.named_args@.len() ==> datetime_option_names().contains(#[trigger] r.named_args@[k].name@)),
{
    reveal_strlit("NUMBER");
    reveal_strlit("DATETIME");
    reveal_strlit("VOID");
    let f = r.name@;
    let mode: int = if f == "NUMBER"@ { 1 } else { 2 };
    let named = r.named_args@;
    lemma_option_errors_empty(path, content, named, f, ctx, mode);
    assert(function_ref_errors(path, content, r, ctx, customs) =~= Seq::<Seq<char>>::empty() + option_errors(path, content, named, f, ctx, mode));
    assert forall|k: int| 0 <= k < named.len() implies
        (option_allowed(mode, #[trigger] named[k].name@) <==> (if f == "NUMBER"@ { number_option_names() } else { datetime_option_names() }).contains(named[k].name@)) by {
        lemma_number_option_names(named[k].name@);
        lemma_datetime_option_names(named[k].name@);
    }
}

/// Each default message that `l` translates uses, in `l`, the same variables
/// (in any order and with any repeats) as in the default locale.
pub open spec fn translations_keep_variables(l: ParsedLocale, dms: Seq<ParsedMessage>) -> bool {
    forall|k: int| 0 <= k < dms.len() && message_index(l.messages@, #[trigger] dms[k].id@) >= 0 ==>
        forall|v: Seq<char>| dms[k].variables.deep_view().contains(v)
            <==> l.messages@[message_index(l.messages@, dms[k].id@)].variables.deep_view().contains(v)
}

proof fn lemma_same_membership(a: ParsedMessage, b: ParsedMessage)
    requires
        forall|v: Seq<char>| a.variables.deep_view().contains(v) <==> b.variables.deep_view().contains(v),
    ensures
        same_variables(a, b),
{
    assert(a.variables.deep_view().to_set() =~= b.variables.deep_view().to_set());
}

/// A locale whose translations use the same variables as the default messages,
/// in whatever order, gets no mismatch error.
pub proof fn law_same_variables_not_reported(loc: Seq<char>, l: ParsedLocale, dms: Seq<ParsedMessage>)
    requires
        translations_keep_variables(l, dms),
    ensures
        compare_errors(loc, l, dms).len() == 0,
    decreases dms.len(),
{
    if dms.len() > 0 {
        let d = dms.drop_last();
        assert forall|k: int| 0 <= k < d.len() && message_index(l.messages@, #[trigger] d[k].id@) >= 0 implies
            forall|v: Seq<char>| d[k].variables.deep_view().contains(v)
                <==> l.messages@[message_index(l.messages@, d[k].id@)].variables.deep_view().contains(v) by {
            assert(d[k] == dms[k]);
            assert(message_index(l.messages@, dms[k].id@) >= 0);
        }
        law_same_variables_not_reported(loc, l, d);
        let dm = dms.last();
        let mi = message_index(l.messages@, dm.id@);
        if mi >= 0 {
            assert(dms[dms.len() - 1] == dm);
            assert forall|v: Seq<char>| dm.variables.deep_view().contains(v) <==> l.messages@[mi].variables.deep_view().contains(v) by {
                assert(message_index(l.messages@, dms[dms.len() - 1].id@) >= 0);
            }
            lemma_same_membership(dm, l.messages@[mi]);
        }
    }
}

/// Across locales: when every other locale's translations use the same
/// variables as the default messages (in any order), no mismatch is reported.
pub proof fn law_no_mismatch_when_variables_agree(ls: Seq<LocaleEntry>, did: Seq<char>, dl: ParsedLocale)
    requires
        forall|i: int| 0 <= i < ls.len() && #[trigger] ls[i].id@ != did ==> translations_keep_variables(ls[i].locale, dl.messages@),
    ensures
        second_pass_errors(ls, did, dl).len() == 0,
    decreases ls.len(),
{
    if ls.len() > 0 {
        let d = ls.drop_last();
        assert forall|i: int| 0 <= i < d.len() && #[trigger] d[i].id@ != did implies translations_keep_variables(d[i].locale, dl.messages@) by {
            assert(d[i] == ls[i]);
        }
        law_no_mismatch_when_variables_agree(d, did, dl);
        let e = ls.last();
        if e.id@ != did {
            assert(ls[ls.len() - 1] == e);
            law_same_variables_not_reported(e.id@, e.locale, dl.messages@);
        }
    }
}

/// A translation in which some variable occurs that the default message does
/// not use, or that lacks one the default message uses, is reported.
pub proof fn law_differing_variables_reported(ls: Seq<LocaleEntry>, did: Seq<char>, dl: ParsedLocale, i: int, k: int, v: Seq<char>)
    requires
        0 <= i < ls.len(),
        ls[i].id@ != did,
        0 <= k < dl.messages@.len(),
        message_index(ls[i].locale.messages@, dl.messages@[k].id@) >= 0,
        dl.messages@[k].variables.deep_view().contains(v) != ls[i].locale.messages@[message_index(ls[i].locale.messages@, dl.messages@[k].id@)].variables.deep_view().contains(v),
    ensures
        second_pass_errors(ls, did, dl).contains(mismatch_error(ls[i].id@, dl.messages@[k],
            ls[i].locale.messages@[message_index(ls[i].locale.messages@, dl.messages@[k].id@)])),
{
    let om = ls[i].locale.messages@[message_index(ls[i].locale.messages@, dl.messages@[k].id@)];
    let a = dl.messages@[k].variables.deep_view();
    let b = om.variables.deep_view();
    assert(a.to_set().contains(v) != b.to_set().contains(v));
    law_mismatch_reported(ls, did, dl, i, k);
}

} // verus!
