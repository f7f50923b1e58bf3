//! Byte-level text primitives: whitespace, prefixes, searching, lines and
//! splitting.
//!
//! Text is a sequence of UTF-8 bytes, and every function here is specified
//! over `Seq<u8>`.

use vstd::prelude::*;
use vstd::slice::*;

verus! {

/// Horizontal tab.
pub const TAB: u8 = 0x09;

/// Line feed.
pub const NEWLINE: u8 = 0x0a;

/// Carriage return.
pub const CARRIAGE_RETURN: u8 = 0x0d;

/// Space.
pub const SPACE: u8 = 0x20;

/// ASCII whitespace: space, tab, line feed, vertical tab, form feed,
/// carriage return.
pub open spec fn is_space(b: u8) -> bool {
    b == SPACE || (TAB <= b && b <= CARRIAGE_RETURN)
}

/// How many whitespace bytes stand at the front of `s`.
pub open spec fn leading_space(s: Seq<u8>) -> nat
    decreases s.len(),
{
    if s.len() > 0 && is_space(s[0]) {
        1 + leading_space(s.drop_first())
    } else {
        0
    }
}

/// How many whitespace bytes stand at the end of `s`.
pub open spec fn trailing_space(s: Seq<u8>) -> nat
    decreases s.len(),
{
    if s.len() > 0 && is_space(s.last()) {
        1 + trailing_space(s.drop_last())
    } else {
        0
    }
}

/// `s` without the whitespace at its front.
pub open spec fn trim_start(s: Seq<u8>) -> Seq<u8> {
    s.skip(leading_space(s) as int)
}

/// `s` without the whitespace at its end.
pub open spec fn trim_end(s: Seq<u8>) -> Seq<u8> {
    s.take(s.len() - trailing_space(s))
}

/// `s` without the whitespace at its front and at its end.
pub open spec fn trim(s: Seq<u8>) -> Seq<u8> {
    trim_end(trim_start(s))
}

/// `n` whitespace bytes at the front of `s` that another byte or the end of
/// `s` follows are the leading whitespace.
pub proof fn lemma_leading_space(s: Seq<u8>, n: int)
    requires
        0 <= n <= s.len(),
        forall|i: int| 0 <= i < n ==> is_space(s[i]),
        n == s.len() || !is_space(s[n]),
    ensures
        leading_space(s) == n,
    decreases n,
{
    if n > 0 {
        lemma_leading_space(s.drop_first(), n - 1);
    }
}

/// `n` whitespace bytes at the end of `s` that another byte or the start
/// of `s` precedes are the trailing whitespace.
pub proof fn lemma_trailing_space(s: Seq<u8>, n: int)
    requires
        0 <= n <= s.len(),
        forall|i: int| s.len() - n <= i < s.len() ==> is_space(s[i]),
        n == s.len() || !is_space(s[s.len() - n - 1]),
    ensures
        trailing_space(s) == n,
    decreases n,
{
    if n > 0 {
        lemma_trailing_space(s.drop_last(), n - 1);
    }
}

/// Whether `b` is ASCII whitespace.
pub fn is_space_byte(b: u8) -> (r: bool)
    ensures
        r == is_space(b),
{
    b == SPACE || (TAB <= b && b <= CARRIAGE_RETURN)
}

/// `s` without the whitespace at its front.
pub fn trim_start_bytes(s: &[u8]) -> (r: &[u8])
    ensures
        r@ == trim_start(s@),
{
    let mut i: usize = 0;
    while i < s.len() && is_space_byte(s[i])
        invariant
            i <= s@.len(),
            forall|j: int| 0 <= j < i ==> is_space(s@[j]),
        decreases s@.len() - i,
    {
        i += 1;
    }
    proof {
        lemma_leading_space(s@, i as int);
    }
    slice_subrange(s, i, s.len())
}

/// `s` without the whitespace at its end.
pub fn trim_end_bytes(s: &[u8]) -> (r: &[u8])
    ensures
        r@ == trim_end(s@),
{
    let mut n: usize = s.len();
    while n > 0 && is_space_byte(s[n - 1])
        invariant
            n <= s@.len(),
            forall|j: int| n <= j < s@.len() ==> is_space(s@[j]),
        decreases n,
    {
        n -= 1;
    }
    proof {
        lemma_trailing_space(s@, s@.len() - n);
    }
    slice_subrange(s, 0, n)
}

/// `s` without the whitespace at its front and at its end.
pub fn trim_bytes(s: &[u8]) -> (r: &[u8])
    ensures
        r@ == trim(s@),
{
    trim_end_bytes(trim_start_bytes(s))
}

/// How many copies of `b` stand at the front of `s`.
pub open spec fn leading_run(s: Seq<u8>, b: u8) -> nat
    decreases s.len(),
{
    if s.len() > 0 && s[0] == b {
        1 + leading_run(s.drop_first(), b)
    } else {
        0
    }
}

/// A run of `n` copies of `b` at the front of `s` that a different byte or
/// the end of `s` follows is the leading run.
pub proof fn lemma_leading_run(s: Seq<u8>, b: u8, n: int)
    requires
        0 <= n <= s.len(),
        forall|i: int| 0 <= i < n ==> s[i] == b,
        n == s.len() || s[n] != b,
    ensures
        leading_run(s, b) == n,
    decreases n,
{
    if n > 0 {
        lemma_leading_run(s.drop_first(), b, n - 1);
    }
}

/// The leading run holds copies of `b` and nothing else, and a different
/// byte or the end of `s` follows it.
pub proof fn lemma_leading_run_holds(s: Seq<u8>, b: u8)
    ensures
        leading_run(s, b) <= s.len(),
        forall|i: int| 0 <= i < leading_run(s, b) ==> s[i] == b,
        leading_run(s, b) == s.len() || s[leading_run(s, b) as int] != b,
    decreases s.len(),
{
    if s.len() > 0 && s[0] == b {
        let rest = s.drop_first();
        lemma_leading_run_holds(rest, b);
        assert forall|i: int| 0 <= i < leading_run(s, b) implies s[i] == b by {
            if i > 0 {
                assert(s[i] == rest[i - 1]);
            }
        }
        if leading_run(s, b) < s.len() {
            assert(s[leading_run(s, b) as int] == rest[leading_run(rest, b) as int]);
        }
    }
}

/// How many copies of `b` stand at the front of `s`.
pub fn count_leading(s: &[u8], b: u8) -> (n: usize)
    ensures
        n == leading_run(s@, b),
        n <= s@.len(),
{
    let mut i: usize = 0;
    while i < s.len() && s[i] == b
        invariant
            i <= s@.len(),
            forall|j: int| 0 <= j < i ==> s@[j] == b,
        decreases s@.len() - i,
    {
        i += 1;
    }
    proof {
        lemma_leading_run(s@, b, i as int);
    }
    i
}

/// Whether `s` begins with `prefix`.
pub open spec fn starts_with(s: Seq<u8>, prefix: Seq<u8>) -> bool {
    prefix.len() <= s.len() && s.take(prefix.len() as int) == prefix
}

/// Whether `s` ends with `suffix`.
pub open spec fn ends_with(s: Seq<u8>, suffix: Seq<u8>) -> bool {
    suffix.len() <= s.len() && s.skip(s.len() - suffix.len()) == suffix
}

/// `pattern` stands in `s` at index `i`.
pub open spec fn matches_at(s: Seq<u8>, pattern: Seq<u8>, i: int) -> bool {
    0 <= i && i + pattern.len() <= s.len() && s.subrange(i, i + pattern.len()) == pattern
}

/// Whether `pattern` stands in `s` at index `i`.
pub fn has_at(s: &[u8], pattern: &[u8], i: usize) -> (r: bool)
    ensures
        r == matches_at(s@, pattern@, i as int),
{
    if pattern.len() > s.len() || i > s.len() - pattern.len() {
        return false;
    }
    let mut k: usize = 0;
    while k < pattern.len()
        invariant
            k <= pattern@.len(),
            i + pattern@.len() <= s@.len() <= usize::MAX,
            forall|j: int| 0 <= j < k ==> s@[i + j] == pattern@[j],
        decreases pattern@.len() - k,
    {
        if s[i + k] != pattern[k] {
            assert(s@.subrange(i as int, i + pattern@.len())[k as int] != pattern@[k as int]);
            return false;
        }
        k += 1;
    }
    assert(s@.subrange(i as int, i + pattern@.len()) =~= pattern@);
    true
}

/// Whether `s` begins with `prefix`.
pub fn has_prefix(s: &[u8], prefix: &[u8]) -> (r: bool)
    ensures
        r == starts_with(s@, prefix@),
{
    let r = has_at(s, prefix, 0);
    proof {
        if prefix@.len() <= s@.len() {
            assert(s@.take(prefix@.len() as int) =~= s@.subrange(0, 0 + prefix@.len() as int));
        }
    }
    r
}

/// Whether `s` ends with `suffix`.
pub fn has_suffix(s: &[u8], suffix: &[u8]) -> (r: bool)
    ensures
        r == ends_with(s@, suffix@),
{
    if suffix.len() > s.len() {
        return false;
    }
    let at = s.len() - suffix.len();
    let r = has_at(s, suffix, at);
    proof {
        assert(s@.skip(s@.len() - suffix@.len()) =~= s@.subrange(at as int, at + suffix@.len()));
    }
    r
}

/// Whether `a` and `b` hold the same bytes.
pub fn bytes_eq(a: &[u8], b: &[u8]) -> (r: bool)
    ensures
        r == (a@ == b@),
{
    if a.len() != b.len() {
        return false;
    }
    let mut i: usize = 0;
    while i < a.len()
        invariant
            i <= a@.len(),
            a@.len() == b@.len(),
            forall|j: int| 0 <= j < i ==> a@[j] == b@[j],
        decreases a@.len() - i,
    {
        if a[i] != b[i] {
            return false;
        }
        i += 1;
    }
    assert(a@ =~= b@);
    true
}

/// Copies `s[from..to]`.
pub fn copy_range(s: &[u8], from: usize, to: usize) -> (r: Vec<u8>)
    requires
        from <= to <= s@.len(),
    ensures
        r@ == s@.subrange(from as int, to as int),
{
    slice_to_vec(slice_subrange(s, from, to))
}

/// Adds `bytes` at the end of `text`.
pub fn append_bytes(text: &mut Vec<u8>, bytes: &[u8])
    ensures
        final(text)@ == old(text)@ + bytes@,
{
    let mut i: usize = 0;
    while i < bytes.len()
        invariant
            i <= bytes@.len(),
            text@ == old(text)@ + bytes@.take(i as int),
        decreases bytes@.len() - i,
    {
        text.push(bytes[i]);
        assert(bytes@.take(i + 1) =~= bytes@.take(i as int).push(bytes@[i as int]));
        i += 1;
    }
    assert(bytes@.take(bytes@.len() as int) =~= bytes@);
}

/// The least index at or after `from` where `pattern` stands in `s`.
pub open spec fn find_from(s: Seq<u8>, pattern: Seq<u8>, from: int) -> Option<int>
    decreases s.len() - from + 1,
{
    if from < 0 || from + pattern.len() > s.len() {
        None
    } else if matches_at(s, pattern, from) {
        Some(from)
    } else {
        find_from(s, pattern, from + 1)
    }
}

/// The least index where `pattern` stands in `s`.
pub open spec fn find(s: Seq<u8>, pattern: Seq<u8>) -> Option<int> {
    find_from(s, pattern, 0)
}

/// `find_from` gives the least match, and `None` only where there is none.
pub proof fn lemma_find_from(s: Seq<u8>, pattern: Seq<u8>, from: int)
    requires
        0 <= from,
    ensures
        match find_from(s, pattern, from) {
            Some(i) => from <= i && matches_at(s, pattern, i) && forall|j: int|
                from <= j < i ==> !matches_at(s, pattern, j),
            None => forall|j: int| from <= j ==> !matches_at(s, pattern, j),
        },
    decreases s.len() - from + 1,
{
    if from + pattern.len() > s.len() {
    } else if matches_at(s, pattern, from) {
    } else {
        lemma_find_from(s, pattern, from + 1);
    }
}

/// A result that matches and has no match before it is the one `find_from`
/// gives.
pub proof fn lemma_find_from_is(s: Seq<u8>, pattern: Seq<u8>, from: int, i: int)
    requires
        0 <= from <= i,
        matches_at(s, pattern, i),
        forall|j: int| from <= j < i ==> !matches_at(s, pattern, j),
    ensures
        find_from(s, pattern, from) == Some(i),
    decreases i - from,
{
    if from < i {
        lemma_find_from_is(s, pattern, from + 1, i);
    }
}

/// Where `pattern` stands nowhere from `from` on, `find_from` gives `None`.
pub proof fn lemma_find_from_none(s: Seq<u8>, pattern: Seq<u8>, from: int)
    requires
        0 <= from,
        forall|j: int| from <= j ==> !matches_at(s, pattern, j),
    ensures
        find_from(s, pattern, from) == None::<int>,
    decreases s.len() - from + 1,
{
    if from + pattern.len() <= s.len() {
        lemma_find_from_none(s, pattern, from + 1);
    }
}

/// The least index at or after `from` where `pattern` stands in `s`.
pub fn find_bytes_from(s: &[u8], pattern: &[u8], from: usize) -> (r: Option<usize>)
    ensures
        match r {
            Some(i) => find_from(s@, pattern@, from as int) == Some(i as int),
            None => find_from(s@, pattern@, from as int) == None::<int>,
        },
{
    if pattern.len() > s.len() || from > s.len() - pattern.len() {
        proof {
            lemma_find_from_none(s@, pattern@, from as int);
        }
        return None;
    }
    let last = s.len() - pattern.len();
    let mut i: usize = from;
    loop
        invariant
            from <= i <= last,
            last == s@.len() - pattern@.len(),
            forall|j: int| from <= j < i ==> !matches_at(s@, pattern@, j),
        decreases last - i,
    {
        if has_at(s, pattern, i) {
            proof {
                lemma_find_from_is(s@, pattern@, from as int, i as int);
            }
            return Some(i);
        }
        if i == last {
            proof {
                lemma_find_from_none(s@, pattern@, from as int);
            }
            return None;
        }
        i += 1;
    }
}

/// The least index where `pattern` stands in `s`.
pub fn find_bytes(s: &[u8], pattern: &[u8]) -> (r: Option<usize>)
    ensures
        match r {
            Some(i) => find(s@, pattern@) == Some(i as int),
            None => find(s@, pattern@) == None::<int>,
        },
{
    find_bytes_from(s, pattern, 0)
}

/// The index of the first line feed at or after `from`, or the length of
/// `s` where there is none.
pub open spec fn line_break(s: Seq<u8>, from: int) -> int
    decreases s.len() - from,
{
    if from < 0 || from >= s.len() {
        s.len() as int
    } else if s[from] == NEWLINE {
        from
    } else {
        line_break(s, from + 1)
    }
}

/// Where the line that starts at `from` and breaks at `brk` ends: before the
/// line feed, and before a carriage return that directly precedes it.
pub open spec fn line_stop(s: Seq<u8>, from: int, brk: int) -> int {
    if brk < s.len() && from < brk && s[brk - 1] == CARRIAGE_RETURN {
        brk - 1
    } else {
        brk
    }
}

/// The lines of `s` from offset `from` on, each as a half-open range of
/// offsets into `s`. A line ends at a line feed or at the end of the text; a
/// final line feed opens no further line.
pub open spec fn line_spans_from(s: Seq<u8>, from: int) -> Seq<(int, int)>
    decreases s.len() - from + 1,
{
    if from < 0 || from >= s.len() {
        Seq::empty()
    } else {
        let brk = line_break(s, from);
        proof {
            lemma_line_break(s, from);
        }
        seq![(from, line_stop(s, from, brk))] + line_spans_from(s, brk + 1)
    }
}

/// The lines of `s`, each as a half-open range of offsets into `s`.
pub open spec fn line_spans(s: Seq<u8>) -> Seq<(int, int)> {
    line_spans_from(s, 0)
}

/// The lines of `s`, without their line endings.
pub open spec fn lines(s: Seq<u8>) -> Seq<Seq<u8>> {
    line_spans(s).map_values(|span: (int, int)| s.subrange(span.0, span.1))
}

/// The lines of `s` from offset `from` on as ranges that reach to the line
/// feed or to the end of the text: a carriage return before the line feed
/// stays in the line. A final line feed opens no further line.
pub open spec fn raw_line_spans_from(s: Seq<u8>, from: int) -> Seq<(int, int)>
    decreases s.len() - from + 1,
{
    if from < 0 || from >= s.len() {
        Seq::empty()
    } else {
        let brk = line_break(s, from);
        proof {
            lemma_line_break(s, from);
        }
        seq![(from, brk)] + raw_line_spans_from(s, brk + 1)
    }
}

/// The lines of `s` as ranges that reach to the line feed.
pub open spec fn raw_line_spans(s: Seq<u8>) -> Seq<(int, int)> {
    raw_line_spans_from(s, 0)
}

/// The lines of `s` up to their line feeds: a carriage return before a line
/// feed stays in its line.
pub open spec fn raw_lines(s: Seq<u8>) -> Seq<Seq<u8>> {
    raw_line_spans(s).map_values(|span: (int, int)| s.subrange(span.0, span.1))
}

/// The lines joined again, a line feed between each two.
pub open spec fn join_lines(lines: Seq<Seq<u8>>) -> Seq<u8>
    decreases lines.len(),
{
    if lines.len() == 0 {
        Seq::empty()
    } else if lines.len() == 1 {
        lines[0]
    } else {
        join_lines(lines.drop_last()) + seq![NEWLINE] + lines.last()
    }
}

/// The views of the items of `v`.
pub open spec fn views(v: Seq<Vec<u8>>) -> Seq<Seq<u8>> {
    v.map_values(|item: Vec<u8>| item@)
}

/// Whether `spans` holds the ranges `model`, in order.
pub open spec fn spans_are(spans: Seq<(usize, usize)>, model: Seq<(int, int)>) -> bool {
    &&& spans.len() == model.len()
    &&& forall|k: int|
        0 <= k < spans.len() ==> (#[trigger] spans[k]).0 == model[k].0 && spans[k].1 == model[k].1
}

/// The line break lies at or behind `from`, no line feed stands before it,
/// and a line feed stands at it unless it is the end of `s`.
pub proof fn lemma_line_break(s: Seq<u8>, from: int)
    requires
        0 <= from <= s.len(),
    ensures
        from <= line_break(s, from) <= s.len(),
        forall|j: int| from <= j < line_break(s, from) ==> s[j] != NEWLINE,
        line_break(s, from) < s.len() ==> s[line_break(s, from)] == NEWLINE,
    decreases s.len() - from,
{
    if from < s.len() && s[from] != NEWLINE {
        lemma_line_break(s, from + 1);
    }
}

/// An offset at or behind `from` with no line feed before it, which holds a
/// line feed or is the end of `s`, is the line break.
pub proof fn lemma_line_break_is(s: Seq<u8>, from: int, brk: int)
    requires
        0 <= from <= brk <= s.len(),
        forall|j: int| from <= j < brk ==> s[j] != NEWLINE,
        brk < s.len() ==> s[brk] == NEWLINE,
    ensures
        line_break(s, from) == brk,
    decreases brk - from,
{
    if from < brk {
        lemma_line_break_is(s, from + 1, brk);
    }
}

/// Every line span lies inside the text, and the spans follow each other.
pub proof fn lemma_line_spans_bounds(s: Seq<u8>, from: int)
    requires
        0 <= from,
    ensures
        forall|k: int|
            0 <= k < line_spans_from(s, from).len() ==> from <= (#[trigger] line_spans_from(
                s,
                from,
            )[k]).0 <= line_spans_from(s, from)[k].1 <= s.len(),
    decreases s.len() - from + 1,
{
    if from < s.len() {
        let brk = line_break(s, from);
        lemma_line_break(s, from);
        lemma_line_spans_bounds(s, brk + 1);
        let rest = line_spans_from(s, brk + 1);
        let all = line_spans_from(s, from);
        assert forall|k: int| 0 <= k < all.len() implies from <= (#[trigger] all[k]).0 <= all[k].1
            <= s.len() by {
            if k > 0 {
                assert(all[k] == rest[k - 1]);
            }
        }
    }
}

/// Every such span lies inside the text, and the spans follow each other.
pub proof fn lemma_raw_line_spans_bounds(s: Seq<u8>, from: int)
    requires
        0 <= from,
    ensures
        forall|k: int|
            0 <= k < raw_line_spans_from(s, from).len() ==> from <= (#[trigger] raw_line_spans_from(
                s,
                from,
            )[k]).0 <= raw_line_spans_from(s, from)[k].1 <= s.len(),
    decreases s.len() - from + 1,
{
    if from < s.len() {
        let brk = line_break(s, from);
        lemma_line_break(s, from);
        lemma_raw_line_spans_bounds(s, brk + 1);
        let rest = raw_line_spans_from(s, brk + 1);
        let all = raw_line_spans_from(s, from);
        assert forall|k: int| 0 <= k < all.len() implies from <= (#[trigger] all[k]).0 <= all[k].1
            <= s.len() by {
            if k > 0 {
                assert(all[k] == rest[k - 1]);
            }
        }
    }
}

/// The spans moved on by `by` bytes.
pub open spec fn shifted(spans: Seq<(int, int)>, by: int) -> Seq<(int, int)> {
    spans.map_values(|span: (int, int)| (span.0 + by, span.1 + by))
}

/// A line break inside `a` is the line break of `a` with any text behind
/// it.
pub proof fn lemma_line_break_in_front(a: Seq<u8>, b: Seq<u8>, from: int)
    requires
        0 <= from <= a.len(),
        line_break(a, from) < a.len(),
    ensures
        line_break(a + b, from) == line_break(a, from),
{
    let brk = line_break(a, from);
    lemma_line_break(a, from);
    assert forall|j: int| from <= j < brk implies (a + b)[j] != NEWLINE by {
        assert((a + b)[j] == a[j]);
    }
    assert((a + b)[brk] == a[brk]);
    lemma_line_break_is(a + b, from, brk);
}

/// The line breaks of `b` behind `a` are those of `b`, moved on by the
/// length of `a`.
pub proof fn lemma_line_break_behind(a: Seq<u8>, b: Seq<u8>, from: int)
    requires
        0 <= from <= b.len(),
    ensures
        line_break(a + b, a.len() + from) == a.len() + line_break(b, from),
{
    let brk = line_break(b, from);
    lemma_line_break(b, from);
    assert forall|j: int| a.len() + from <= j < a.len() + brk implies (a + b)[j] != NEWLINE by {
        assert((a + b)[j] == b[j - a.len()]);
    }
    if brk < b.len() {
        assert((a + b)[a.len() + brk] == b[brk]);
    }
    lemma_line_break_is(a + b, a.len() + from, a.len() + brk);
}

/// The lines of `b` behind `a` are those of `b`, moved on by the length of
/// `a`.
pub proof fn lemma_raw_line_spans_behind(a: Seq<u8>, b: Seq<u8>, from: int)
    requires
        0 <= from,
    ensures
        raw_line_spans_from(a + b, a.len() + from) == shifted(
            raw_line_spans_from(b, from),
            a.len() as int,
        ),
    decreases b.len() - from + 1,
{
    if from < b.len() {
        let brk = line_break(b, from);
        lemma_line_break(b, from);
        lemma_line_break_behind(a, b, from);
        lemma_raw_line_spans_behind(a, b, brk + 1);
        assert(raw_line_spans_from(a + b, a.len() + from) =~= shifted(
            raw_line_spans_from(b, from),
            a.len() as int,
        ));
    } else {
        assert(raw_line_spans_from(a + b, a.len() + from) =~= shifted(
            raw_line_spans_from(b, from),
            a.len() as int,
        ));
    }
}

/// Behind a text that ends with a line feed, or behind no text, the lines
/// of what follows begin afresh: the spans are those of the text and then
/// those of what follows, moved on.
pub proof fn lemma_raw_line_spans_concat(a: Seq<u8>, b: Seq<u8>, from: int)
    requires
        0 <= from <= a.len(),
        a.len() == 0 || a.last() == NEWLINE,
    ensures
        raw_line_spans_from(a + b, from) == raw_line_spans_from(a, from) + shifted(
            raw_line_spans(b),
            a.len() as int,
        ),
    decreases a.len() - from,
{
    if from == a.len() {
        lemma_raw_line_spans_behind(a, b, 0);
        assert(raw_line_spans_from(a, from) =~= Seq::<(int, int)>::empty());
        assert(raw_line_spans_from(a + b, from) =~= raw_line_spans_from(a, from) + shifted(
            raw_line_spans(b),
            a.len() as int,
        ));
    } else {
        let brk = line_break(a, from);
        lemma_line_break(a, from);
        lemma_line_break_in_front(a, b, from);
        lemma_raw_line_spans_concat(a, b, brk + 1);
        assert(raw_line_spans_from(a + b, from) =~= raw_line_spans_from(a, from) + shifted(
            raw_line_spans(b),
            a.len() as int,
        ));
    }
}

/// Behind a text that ends with a line feed, or behind no text, the lines
/// of what follows begin afresh: the lines are those of the text and then
/// those of what follows.
pub proof fn lemma_raw_lines_concat(a: Seq<u8>, b: Seq<u8>)
    requires
        a.len() == 0 || a.last() == NEWLINE,
    ensures
        raw_lines(a + b) == raw_lines(a) + raw_lines(b),
        raw_line_spans(a + b) == raw_line_spans(a) + shifted(raw_line_spans(b), a.len() as int),
{
    lemma_raw_line_spans_concat(a, b, 0);
    lemma_raw_line_spans_bounds(a, 0);
    lemma_raw_line_spans_bounds(b, 0);
    let front = raw_line_spans(a);
    let back = raw_line_spans(b);
    let all = raw_line_spans(a + b);
    assert(raw_lines(a + b).len() == raw_lines(a).len() + raw_lines(b).len());
    assert forall|k: int| 0 <= k < all.len() implies raw_lines(a + b)[k] == (raw_lines(a)
        + raw_lines(b))[k] by {
        if k < front.len() {
            assert(all[k] == front[k]);
            assert(raw_line_spans_from(a, 0)[k] == front[k]);
            assert((a + b).subrange(front[k].0, front[k].1) =~= a.subrange(front[k].0, front[k].1));
        } else {
            let j = k - front.len();
            assert(all[k] == (back[j].0 + a.len(), back[j].1 + a.len()));
            assert(raw_line_spans_from(b, 0)[j] == back[j]);
            assert((a + b).subrange(back[j].0 + a.len(), back[j].1 + a.len()) =~= b.subrange(
                back[j].0,
                back[j].1,
            ));
        }
    }
    assert(raw_lines(a + b) =~= raw_lines(a) + raw_lines(b));
}

/// The index of the first line feed at or after `from`, or the length of
/// `s`.
pub fn find_line_break(s: &[u8], from: usize) -> (brk: usize)
    requires
        from <= s@.len(),
    ensures
        brk == line_break(s@, from as int),
        from <= brk <= s@.len(),
{
    let mut i: usize = from;
    while i < s.len() && s[i] != NEWLINE
        invariant
            from <= i <= s@.len(),
            forall|j: int| from <= j < i ==> s@[j] != NEWLINE,
        decreases s@.len() - i,
    {
        i += 1;
    }
    proof {
        lemma_line_break_is(s@, from as int, i as int);
    }
    i
}

/// The lines of `s` as ranges of offsets.
pub fn split_line_spans(s: &[u8]) -> (r: Vec<(usize, usize)>)
    ensures
        spans_are(r@, line_spans(s@)),
{
    let mut out: Vec<(usize, usize)> = Vec::new();
    let mut from: usize = 0;
    while from < s.len()
        invariant
            from <= s@.len(),
            line_spans(s@).len() == out@.len() + line_spans_from(s@, from as int).len(),
            forall|k: int|
                0 <= k < out@.len() ==> (#[trigger] out@[k]).0 == line_spans(s@)[k].0 && out@[k].1
                    == line_spans(s@)[k].1,
            forall|k: int|
                0 <= k < line_spans_from(s@, from as int).len() ==> line_spans(s@)[out@.len() + k]
                    == #[trigger] line_spans_from(s@, from as int)[k],
        decreases s@.len() - from,
    {
        let brk = find_line_break(s, from);
        let stop = if brk < s.len() && from < brk && s[brk - 1] == CARRIAGE_RETURN {
            brk - 1
        } else {
            brk
        };
        let ghost before = line_spans_from(s@, from as int);
        let ghost after = line_spans_from(s@, brk + 1);
        proof {
            assert(before == seq![(from as int, stop as int)] + after);
            assert(before[0] == (from as int, stop as int));
            assert forall|k: int| 0 <= k < after.len() implies line_spans(s@)[out@.len() + 1 + k]
                == #[trigger] after[k] by {
                assert(before[k + 1] == after[k]);
            }
        }
        out.push((from, stop));
        if brk == s.len() {
            from = brk;
        } else {
            from = brk + 1;
        }
    }
    out
}

/// The lines of `s` as ranges of offsets that reach to the line feed.
pub fn split_raw_line_spans(s: &[u8]) -> (r: Vec<(usize, usize)>)
    ensures
        spans_are(r@, raw_line_spans(s@)),
{
    let mut out: Vec<(usize, usize)> = Vec::new();
    let mut from: usize = 0;
    while from < s.len()
        invariant
            from <= s@.len(),
            raw_line_spans(s@).len() == out@.len() + raw_line_spans_from(s@, from as int).len(),
            forall|k: int|
                0 <= k < out@.len() ==> (#[trigger] out@[k]).0 == raw_line_spans(s@)[k].0 && out@[k].1
                    == raw_line_spans(s@)[k].1,
            forall|k: int|
                0 <= k < raw_line_spans_from(s@, from as int).len() ==> raw_line_spans(s@)[out@.len() + k]
                    == #[trigger] raw_line_spans_from(s@, from as int)[k],
        decreases s@.len() - from,
    {
        let brk = find_line_break(s, from);
        let stop = brk;
        let ghost before = raw_line_spans_from(s@, from as int);
        let ghost after = raw_line_spans_from(s@, brk + 1);
        proof {
            assert(before == seq![(from as int, stop as int)] + after);
            assert(before[0] == (from as int, stop as int));
            assert forall|k: int| 0 <= k < after.len() implies raw_line_spans(s@)[out@.len() + 1 + k]
                == #[trigger] after[k] by {
                assert(before[k + 1] == after[k]);
            }
        }
        out.push((from, stop));
        if brk == s.len() {
            from = brk;
        } else {
            from = brk + 1;
        }
    }
    out
}

/// The lines of `s`, without their line endings.
pub fn split_lines(s: &[u8]) -> (r: Vec<Vec<u8>>)
    ensures
        views(r@) == lines(s@),
{
    let spans = split_line_spans(s);
    let mut out: Vec<Vec<u8>> = Vec::new();
    let mut k: usize = 0;
    proof {
        lemma_line_spans_bounds(s@, 0);
    }
    while k < spans.len()
        invariant
            k <= spans@.len(),
            spans_are(spans@, line_spans(s@)),
            out@.len() == k,
            forall|j: int|
                0 <= j < line_spans_from(s@, 0).len() ==> 0 <= (#[trigger] line_spans_from(
                    s@,
                    0,
                )[j]).0 <= line_spans_from(s@, 0)[j].1 <= s@.len(),
            forall|j: int| 0 <= j < k ==> (#[trigger] out@[j])@ == lines(s@)[j],
        decreases spans@.len() - k,
    {
        let (start, stop) = spans[k];
        assert(line_spans_from(s@, 0)[k as int].0 == start);
        out.push(copy_range(s, start, stop));
        k += 1;
    }
    assert(views(out@) =~= lines(s@));
    out
}

/// The line with index `k`, given the spans of the lines of `s`.
pub fn line_at<'a>(s: &'a [u8], spans: &Vec<(usize, usize)>, k: usize) -> (line: &'a [u8])
    requires
        spans_are(spans@, line_spans(s@)),
        k < spans@.len(),
    ensures
        line@ == lines(s@)[k as int],
{
    proof {
        lemma_line_spans_bounds(s@, 0);
        assert(line_spans_from(s@, 0)[k as int].0 == spans@[k as int].0);
    }
    let (start, stop) = spans[k];
    slice_subrange(s, start, stop)
}

/// The line with index `k` up to its line feed, given such spans of the
/// lines of `s`.
pub fn raw_line_at<'a>(s: &'a [u8], spans: &Vec<(usize, usize)>, k: usize) -> (line: &'a [u8])
    requires
        spans_are(spans@, raw_line_spans(s@)),
        k < spans@.len(),
    ensures
        line@ == raw_lines(s@)[k as int],
{
    proof {
        lemma_raw_line_spans_bounds(s@, 0);
        assert(raw_line_spans_from(s@, 0)[k as int].0 == spans@[k as int].0);
    }
    let (start, stop) = spans[k];
    slice_subrange(s, start, stop)
}

/// The pieces of `s` from offset `from` on that lie between the occurrences
/// of `delimiter`, found from left to right. An empty delimiter splits
/// nothing.
pub open spec fn split_from(s: Seq<u8>, delimiter: Seq<u8>, from: int) -> Seq<Seq<u8>>
    decreases s.len() - from + 1,
{
    if delimiter.len() == 0 || from < 0 {
        seq![s.skip(from)]
    } else {
        match find_from(s, delimiter, from) {
            None => seq![s.skip(from)],
            Some(i) => {
                proof {
                    lemma_find_from(s, delimiter, from);
                }
                seq![s.subrange(from, i)] + split_from(s, delimiter, i + delimiter.len())
            },
        }
    }
}

/// The pieces of `s` between the occurrences of `delimiter`.
pub open spec fn split(s: Seq<u8>, delimiter: Seq<u8>) -> Seq<Seq<u8>> {
    split_from(s, delimiter, 0)
}

/// The pieces joined again, `delimiter` between each two.
pub open spec fn join(pieces: Seq<Seq<u8>>, delimiter: Seq<u8>) -> Seq<u8>
    decreases pieces.len(),
{
    if pieces.len() == 0 {
        Seq::empty()
    } else if pieces.len() == 1 {
        pieces[0]
    } else {
        pieces[0] + delimiter + join(pieces.drop_first(), delimiter)
    }
}

/// Joining the pieces with the delimiter gives the text back.
pub proof fn lemma_split_join(s: Seq<u8>, delimiter: Seq<u8>, from: int)
    requires
        0 <= from <= s.len(),
    ensures
        join(split_from(s, delimiter, from), delimiter) == s.skip(from),
    decreases s.len() - from + 1,
{
    if delimiter.len() == 0 {
    } else {
        match find_from(s, delimiter, from) {
            None => {},
            Some(i) => {
                lemma_find_from(s, delimiter, from);
                let next = i + delimiter.len();
                let rest = split_from(s, delimiter, next);
                let all = split_from(s, delimiter, from);
                lemma_split_join(s, delimiter, next);
                assert(all.drop_first() =~= rest);
                assert(s.skip(from) =~= s.subrange(from, i) + delimiter + s.skip(next)) by {
                    assert(s.subrange(i, next) == delimiter);
                }
            },
        }
    }
}

/// No piece holds the delimiter.
pub proof fn lemma_split_pieces_clean(s: Seq<u8>, delimiter: Seq<u8>, from: int)
    requires
        0 <= from <= s.len(),
        delimiter.len() > 0,
    ensures
        forall|k: int|
            0 <= k < split_from(s, delimiter, from).len() ==> find(
                #[trigger] split_from(s, delimiter, from)[k],
                delimiter,
            ) == None::<int>,
    decreases s.len() - from + 1,
{
    let all = split_from(s, delimiter, from);
    lemma_find_from(s, delimiter, from);
    match find_from(s, delimiter, from) {
        None => {
            let piece = s.skip(from);
            assert forall|j: int| 0 <= j implies !matches_at(piece, delimiter, j) by {
                if matches_at(piece, delimiter, j) {
                    assert(piece.subrange(j, j + delimiter.len()) =~= s.subrange(
                        from + j,
                        from + j + delimiter.len(),
                    ));
                    assert(matches_at(s, delimiter, from + j));
                }
            }
            lemma_find_from_none(piece, delimiter, 0);
        },
        Some(i) => {
            let piece = s.subrange(from, i);
            assert forall|j: int| 0 <= j implies !matches_at(piece, delimiter, j) by {
                if matches_at(piece, delimiter, j) {
                    assert(piece.subrange(j, j + delimiter.len()) =~= s.subrange(
                        from + j,
                        from + j + delimiter.len(),
                    ));
                    assert(matches_at(s, delimiter, from + j));
                }
            }
            lemma_find_from_none(piece, delimiter, 0);
            let rest = split_from(s, delimiter, i + delimiter.len());
            lemma_split_pieces_clean(s, delimiter, i + delimiter.len());
            assert forall|k: int| 0 <= k < all.len() implies find(#[trigger] all[k], delimiter)
                == None::<int> by {
                if k > 0 {
                    assert(all[k] == rest[k - 1]);
                }
            }
        },
    }
}

/// The pieces of `s` between the occurrences of `delimiter`.
pub fn split_bytes(s: &[u8], delimiter: &[u8]) -> (r: Vec<Vec<u8>>)
    ensures
        views(r@) == split(s@, delimiter@),
        r@.len() >= 1,
{
    let mut out: Vec<Vec<u8>> = Vec::new();
    if delimiter.len() == 0 {
        out.push(copy_range(s, 0, s.len()));
        assert(views(out@) =~= split(s@, delimiter@));
        return out;
    }
    let n = s.len();
    let mut from: usize = 0;
    loop
        invariant
            from <= s@.len() == n,
            delimiter@.len() > 0,
            split(s@, delimiter@) == views(out@) + split_from(s@, delimiter@, from as int),
        decreases s@.len() - from,
    {
        let ghost done = views(out@);
        match find_bytes_from(s, delimiter, from) {
            None => {
                out.push(copy_range(s, from, s.len()));
                assert(views(out@) =~= done + seq![s@.skip(from as int)]);
                return out;
            },
            Some(i) => {
                proof {
                    lemma_find_from(s@, delimiter@, from as int);
                }
                out.push(copy_range(s, from, i));
                assert(views(out@) =~= done + seq![s@.subrange(from as int, i as int)]);
                assert(split(s@, delimiter@) =~= views(out@) + split_from(
                    s@,
                    delimiter@,
                    i + delimiter@.len(),
                ));
                from = i + delimiter.len();
            },
        }
    }
}

} // verus!
